use vstd::prelude::*;

pub use crate::ir::IR;

use crate::ir::{
    copy_ir, lemma_size_of_ir_pos, lemma_size_of_irs_elem, lemma_view_ir_loop,
    lemma_view_irs_index, lemma_view_irs_len, lemma_view_irs_push, size_of_ir, size_of_irs,
    view_ir, view_irs, wrap_add_i32, wrap_add_usize, SpecIr,
};

verus! {

broadcast use
    lemma_view_irs_len,
    lemma_view_irs_index,
    lemma_view_irs_push,
    lemma_size_of_ir_pos;

/// The one structural error of parsing: `[` and `]` do not pair up.
#[derive(Debug, Clone, Copy, PartialEq, Eq, Hash, Structural)]
pub enum OptimizerError {
    UnbalancedBrackets,
}

/// An instruction that has no effect: an addition of zero or a move by zero.
pub open spec fn is_zero_op(i: SpecIr) -> bool {
    match i {
        SpecIr::Add { x, offset: _ } => x == 0,
        SpecIr::Move { over } => over == 0,
        _ => false,
    }
}

/// What the zero-op filter makes of one instruction: nothing for a zero op,
/// a recursively filtered loop, the instruction itself otherwise.
pub open spec fn filter_one(i: SpecIr) -> Seq<SpecIr>
    decreases size_of_ir(i), 0int,
{
    if is_zero_op(i) {
        Seq::empty()
    } else {
        match i {
            SpecIr::Loop { over, body: _ } => {
                proof {
                    lemma_size_of_ir_pos(i);
                }
                seq![SpecIr::Loop { over, body: filter_irs(i->body) }]
            },
            _ => seq![i],
        }
    }
}

/// Removes every `Add` of zero and `Move` by zero from a list, recursively
/// through loop bodies.
pub open spec fn filter_irs(v: Seq<SpecIr>) -> Seq<SpecIr>
    decreases size_of_irs(v), 1int,
{
    if v.len() == 0 {
        Seq::empty()
    } else {
        let sub = v.subrange(0, v.len() - 1);
        let last = v[v.len() - 1];
        proof {
            lemma_size_of_ir_pos(last);
        }
        filter_irs(sub) + filter_one(last)
    }
}

/// Unfolding of `filter_irs` over an appended element.
pub broadcast proof fn lemma_filter_irs_push(v: Seq<SpecIr>, x: SpecIr)
    ensures
        #![trigger filter_irs(v.push(x))]
        filter_irs(v.push(x)) == filter_irs(v) + filter_one(x),
{
    let w = v.push(x);
    assert(w.subrange(0, w.len() - 1) =~= v);
}

/// The six characters that translate to a leaf instruction.
pub open spec fn is_bf_leaf(c: char) -> bool {
    c == '+' || c == '-' || c == '>' || c == '<' || c == '.' || c == ','
}

/// The leaf instruction of one source character.
pub open spec fn leaf_ir(c: char) -> SpecIr {
    if c == '+' {
        SpecIr::Add { x: 1, offset: 0 }
    } else if c == '-' {
        SpecIr::Add { x: -1, offset: 0 }
    } else if c == '>' {
        SpecIr::Move { over: 1 }
    } else if c == '<' {
        SpecIr::Move { over: -1 }
    } else if c == '.' {
        SpecIr::Print { times: 1, offset: 0 }
    } else {
        SpecIr::Read { offset: 0 }
    }
}

/// One step of the bracket-matching parse.  The stack holds one scope per
/// open bracket, the innermost last; `None` reports an unmatched `]`.
pub open spec fn o0_step(stack: Seq<Seq<SpecIr>>, c: char) -> Option<Seq<Seq<SpecIr>>> {
    if c == '[' {
        Some(stack.push(Seq::empty()))
    } else if c == ']' {
        if stack.len() >= 2 {
            let body = stack[stack.len() - 1];
            let rest = stack.subrange(0, stack.len() - 1);
            let k = rest.len() - 1;
            Some(rest.update(k, rest[k].push(SpecIr::Loop { over: 0, body })))
        } else {
            None
        }
    } else if is_bf_leaf(c) {
        if stack.len() >= 1 {
            let k = stack.len() - 1;
            Some(stack.update(k, stack[k].push(leaf_ir(c))))
        } else {
            None
        }
    } else {
        Some(stack)
    }
}

/// The parse stack after reading a whole source text, starting from one
/// empty root scope; `None` once any step failed.
pub open spec fn o0_fold(s: Seq<char>) -> Option<Seq<Seq<SpecIr>>>
    decreases s.len(),
{
    if s.len() == 0 {
        Some(seq![Seq::<SpecIr>::empty()])
    } else {
        match o0_fold(s.subrange(0, s.len() - 1)) {
            Option::None => Option::None,
            Option::Some(stack) => o0_step(stack, s[s.len() - 1]),
        }
    }
}

/// What parsing a source text yields: the filtered root scope, or
/// `UnbalancedBrackets` when a `]` lacked its `[` or a scope stayed open.
pub open spec fn spec_o0(s: Seq<char>) -> Result<Seq<SpecIr>, OptimizerError> {
    match o0_fold(s) {
        Option::None => Result::Err(OptimizerError::UnbalancedBrackets),
        Option::Some(stack) => if stack.len() == 1 {
            Result::Ok(filter_irs(stack[0]))
        } else {
            Result::Err(OptimizerError::UnbalancedBrackets)
        },
    }
}

/// A failed parse of a prefix fails for the whole text.
pub proof fn lemma_o0_fold_none(s: Seq<char>, n: int)
    requires
        0 <= n <= s.len(),
        o0_fold(s.subrange(0, n)) is None,
    ensures
        o0_fold(s) is None,
    decreases s.len() - n,
{
    if n == s.len() {
        assert(s.subrange(0, n) =~= s);
    } else {
        let t = s.subrange(0, n + 1);
        assert(t.subrange(0, t.len() - 1) =~= s.subrange(0, n));
        lemma_o0_fold_none(s, n + 1);
    }
}

/// The view of an executable parse stack.
pub open spec fn view_stack(st: Seq<Vec<IR>>) -> Seq<Seq<SpecIr>> {
    Seq::new(st.len(), |k: int| view_irs(st[k]@))
}

impl IR {
    /// The leaf instruction of one of the six primitive source characters.
    pub fn from_char(c: char) -> (r: IR)
        requires
            is_bf_leaf(c),
        ensures
            view_ir(r) == leaf_ir(c),
    {
        if c == '+' {
            IR::Add { x: 1, offset: 0 }
        } else if c == '-' {
            IR::Add { x: -1, offset: 0 }
        } else if c == '>' {
            IR::Move { over: 1 }
        } else if c == '<' {
            IR::Move { over: -1 }
        } else if c == '.' {
            IR::Print { times: 1, offset: 0 }
        } else {
            IR::Read { offset: 0 }
        }
    }
}

/// Removes every `Add { x: 0, .. }` and `Move { over: 0 }` instruction,
/// recursively through loop bodies.
pub fn remove_zero_moves_and_adds(v: &Vec<IR>) -> (r: Vec<IR>)
    ensures
        view_irs(r@) == filter_irs(view_irs(v@)),
    decreases size_of_irs(view_irs(v@)),
{
    let mut result: Vec<IR> = Vec::new();
    let n = v.len();
    proof {
        lemma_view_irs_len(v@);
    }
    for j in 0..n
        invariant
            n == v@.len(),
            view_irs(result@) == filter_irs(view_irs(v@.subrange(0, j as int))),
    {
        proof {
            lemma_view_irs_len(v@);
            lemma_view_irs_index(v@, j as int);
            lemma_size_of_irs_elem(view_irs(v@), j as int);
        }
        let ghost r0 = result@;
        let ghost prefix = view_irs(v@.subrange(0, j as int));
        match &v[j] {
            IR::Add { x, offset } => {
                if *x != 0 {
                    result.push(IR::Add { x: *x, offset: *offset });
                }
            },
            IR::Move { over } => {
                if *over != 0 {
                    result.push(IR::Move { over: *over });
                }
            },
            IR::Print { times, offset } => {
                result.push(IR::Print { times: *times, offset: *offset });
            },
            IR::Read { offset } => {
                result.push(IR::Read { offset: *offset });
            },
            IR::Exact { x, offset } => {
                result.push(IR::Exact { x: *x, offset: *offset });
            },
            IR::Loop { over, instructions } => {
                let body = remove_zero_moves_and_adds(instructions);
                result.push(IR::Loop { over: *over, instructions: body });
            },
            IR::Mul { x, y, offset } => {
                result.push(IR::Mul { x: *x, y: *y, offset: *offset });
            },
        }
        proof {
            lemma_view_irs_push(v@.subrange(0, j as int), v@[j as int]);
            assert(v@.subrange(0, j + 1) =~= v@.subrange(0, j as int).push(v@[j as int]));
            lemma_filter_irs_push(prefix, view_ir(v@[j as int]));
            if result@ != r0 {
                lemma_view_irs_push(r0, result@[result@.len() - 1]);
            }
            assert(view_irs(result@) =~= filter_irs(view_irs(v@.subrange(0, j + 1))));
        }
    }
    proof {
        assert(v@.subrange(0, n as int) =~= v@);
    }
    result
}

/// Parses source text into an unoptimized instruction tree.
///
/// The six command characters become leaf instructions, brackets build
/// loops, and every other character is ignored.  An unmatched bracket in
/// either direction yields `UnbalancedBrackets`.
pub fn optimize_o0(bf: &str) -> (r: Result<Vec<IR>, OptimizerError>)
    ensures
        (match spec_o0(bf@) {
            Result::Ok(p) => r matches Ok(out) && view_irs(out@) == p,
            Result::Err(e) => r matches Err(e2) && e2 == e,
        }),
{
    let n = bf.unicode_len();
    let mut stack: Vec<Vec<IR>> = Vec::new();
    stack.push(Vec::new());
    proof {
        assert(view_stack(stack@) =~= seq![Seq::<SpecIr>::empty()]);
        assert(bf@.subrange(0, 0) =~= Seq::<char>::empty());
    }
    for idx in 0..n
        invariant
            n == bf@.len(),
            stack@.len() >= 1,
            o0_fold(bf@.subrange(0, idx as int)) == Some(view_stack(stack@)),
    {
        let c = bf.get_char(idx);
        let ghost st0 = view_stack(stack@);
        if c == '[' {
            stack.push(Vec::new());
            proof {
                assert(view_stack(stack@) =~= st0.push(Seq::<SpecIr>::empty()));
            }
        } else if c == ']' {
            let body = stack.pop().unwrap();
            if stack.len() == 0 {
                proof {
                    assert(o0_fold(bf@.subrange(0, idx + 1)) is None) by {
                        assert(bf@.subrange(0, idx + 1).subrange(0, idx as int) =~= bf@.subrange(
                            0,
                            idx as int,
                        ));
                    }
                    lemma_o0_fold_none(bf@, idx + 1);
                }
                return Result::Err(OptimizerError::UnbalancedBrackets);
            }
            let mut scope = stack.pop().unwrap();
            let ghost s0 = scope@;
            scope.push(IR::Loop { over: 0, instructions: body });
            stack.push(scope);
            proof {
                lemma_view_irs_push(s0, IR::Loop { over: 0, instructions: body });
                lemma_view_ir_loop(0, body);
                let rest = st0.subrange(0, st0.len() - 1);
                let k = rest.len() - 1;
                assert(st0[st0.len() - 1] == view_irs(body@));
                assert(rest[k] == view_irs(s0));
                assert(view_stack(stack@) =~= rest.update(
                    k,
                    rest[k].push(SpecIr::Loop { over: 0, body: view_irs(body@) }),
                ));
            }
        } else if c == '+' || c == '-' || c == '>' || c == '<' || c == '.' || c == ',' {
            let mut scope = stack.pop().unwrap();
            let ghost s0 = scope@;
            let leaf = IR::from_char(c);
            scope.push(leaf);
            stack.push(scope);
            proof {
                lemma_view_irs_push(s0, leaf);
                let k = st0.len() - 1;
                assert(st0[k] == view_irs(s0));
                assert(view_stack(stack@) =~= st0.update(k, st0[k].push(leaf_ir(c))));
            }
        } else {
            proof {
                assert(view_stack(stack@) =~= st0);
            }
        }
        proof {
            assert(bf@.subrange(0, idx + 1).subrange(0, idx as int) =~= bf@.subrange(
                0,
                idx as int,
            ));
            assert(bf@.subrange(0, idx + 1)[idx as int] == bf@[idx as int]);
        }
    }
    proof {
        assert(bf@.subrange(0, n as int) =~= bf@);
    }
    if stack.len() == 1 {
        let ghost full = stack@;
        let top = stack.pop().unwrap();
        proof {
            assert(view_stack(full)[0] == view_irs(top@));
        }
        let out = remove_zero_moves_and_adds(&top);
        Result::Ok(out)
    } else {
        Result::Err(OptimizerError::UnbalancedBrackets)
    }
}

/// The body of a clear idiom: exactly one increment or one decrement of the
/// current cell.
pub open spec fn is_clear_loop_body(body: Seq<SpecIr>) -> bool {
    body.len() == 1 && (body[0] == (SpecIr::Add { x: 1, offset: 0 }) || body[0] == (SpecIr::Add {
        x: -1,
        offset: 0,
    }))
}

/// Fusion outcome when the incoming instruction is a loop that moves by
/// zero and no earlier rule applied: a clear idiom becomes `Exact { 0, 0 }`,
/// any other loop is fused recursively.
pub open spec fn o1_rule_loop(acc: Seq<SpecIr>, body: Seq<SpecIr>) -> Seq<SpecIr>
    decreases size_of_irs(body), 3int,
{
    if is_clear_loop_body(body) {
        acc.push(SpecIr::Exact { x: 0, offset: 0 })
    } else {
        acc.push(SpecIr::Loop { over: 0, body: o1_list(body, false) })
    }
}

/// One step of peephole fusion: how the next instruction `i` combines with
/// the output accumulated so far.  The first applicable rule wins:
/// adjacent additions, moves and prints merge; an addition or a clear dies
/// before a read; a loop directly after a loop, or after a clear, is
/// unreachable and dropped; a remaining stationary loop is cleared or fused
/// recursively; anything else is appended unchanged.
pub open spec fn o1_push(acc: Seq<SpecIr>, i: SpecIr) -> Seq<SpecIr>
    decreases size_of_ir(i), 0int,
{
    if acc.len() == 0 {
        acc.push(i)
    } else {
        let m = acc.len() - 1;
        let last = acc[m];
        match (last, i) {
            (SpecIr::Add { x: a, offset: ao }, SpecIr::Add { x: b, offset: bo }) => {
                if ao == 0 && bo == 0 {
                    acc.update(m, SpecIr::Add { x: wrap_add_i32(a, b), offset: 0 })
                } else {
                    acc.push(i)
                }
            },
            (SpecIr::Move { over: a }, SpecIr::Move { over: b }) => acc.update(
                m,
                SpecIr::Move { over: wrap_add_i32(a, b) },
            ),
            (SpecIr::Add { x: _, offset: ao }, SpecIr::Read { offset: ro }) => {
                if ao == 0 && ro == 0 {
                    acc.subrange(0, m).push(i)
                } else {
                    acc.push(i)
                }
            },
            (SpecIr::Exact { x: e, offset: eo }, SpecIr::Read { offset: ro }) => {
                if e == 0 && eo == 0 && ro == 0 {
                    acc.subrange(0, m).push(i)
                } else {
                    acc.push(i)
                }
            },
            (
                SpecIr::Print { times: a, offset: ao },
                SpecIr::Print { times: b, offset: _ },
            ) => acc.update(m, SpecIr::Print { times: wrap_add_usize(a, b), offset: ao }),
            (SpecIr::Loop { over: lo, body: _ }, SpecIr::Loop { over: co, body }) => {
                if lo == 0 && co == 0 {
                    acc
                } else if co == 0 {
                    proof {
                        lemma_size_of_ir_pos(i);
                    }
                    o1_rule_loop(acc, body)
                } else {
                    acc.push(i)
                }
            },
            (SpecIr::Exact { x: e, offset: eo }, SpecIr::Loop { over: co, body }) => {
                if e == 0 && eo == 0 && co == 0 {
                    acc
                } else if co == 0 {
                    o1_rule_loop(acc, body)
                } else {
                    acc.push(i)
                }
            },
            (_, SpecIr::Loop { over: co, body }) => {
                if co == 0 {
                    o1_rule_loop(acc, body)
                } else {
                    acc.push(i)
                }
            },
            (_, _) => acc.push(i),
        }
    }
}

/// Fusion folded over a list, left to right, from a given start.
pub open spec fn o1_fold(acc: Seq<SpecIr>, rest: Seq<SpecIr>) -> Seq<SpecIr>
    decreases size_of_irs(rest), 1int,
{
    if rest.len() == 0 {
        acc
    } else {
        let sub = rest.subrange(0, rest.len() - 1);
        let last = rest[rest.len() - 1];
        proof {
            lemma_size_of_ir_pos(last);
            lemma_size_of_irs_elem(rest, rest.len() - 1);
        }
        o1_push(o1_fold(acc, sub), last)
    }
}

/// Peephole fusion of one scope.  At the outermost scope a virtual
/// `Exact { 0, 0 }` stands for "program start" while the rules run, and is
/// stripped again if still present in front.
pub open spec fn o1_list(v: Seq<SpecIr>, program_start: bool) -> Seq<SpecIr>
    decreases size_of_irs(v), 2int,
{
    let init: Seq<SpecIr> = if program_start {
        seq![SpecIr::Exact { x: 0, offset: 0 }]
    } else {
        Seq::empty()
    };
    let folded = o1_fold(init, v);
    if program_start && folded.len() > 0 && folded[0] == (SpecIr::Exact { x: 0, offset: 0 }) {
        folded.subrange(1, folded.len() as int)
    } else {
        folded
    }
}

/// Unfolding of `o1_fold` over an appended element.
pub broadcast proof fn lemma_o1_fold_push(acc: Seq<SpecIr>, v: Seq<SpecIr>, x: SpecIr)
    ensures
        #![trigger o1_fold(acc, v.push(x))]
        o1_fold(acc, v.push(x)) == o1_push(o1_fold(acc, v), x),
{
    let w = v.push(x);
    assert(w.subrange(0, w.len() - 1) =~= v);
}

/// What the whole first optimization level yields for a source text.
pub open spec fn spec_o1(s: Seq<char>) -> Result<Seq<SpecIr>, OptimizerError> {
    match spec_o0(s) {
        Result::Ok(p) => Result::Ok(filter_irs(o1_list(p, true))),
        Result::Err(e) => Result::Err(e),
    }
}

/// Does a loop body consist of exactly one `+` or one `-` on the current
/// cell?
fn is_clear_body(instructions: &Vec<IR>) -> (r: bool)
    ensures
        r == is_clear_loop_body(view_irs(instructions@)),
{
    if instructions.len() != 1 {
        return false;
    }
    match &instructions[0] {
        IR::Add { x, offset } => (*x == 1 || *x == -1) && *offset == 0,
        _ => false,
    }
}

/// Appends the fusion of one stationary loop body: a clear instruction for
/// the clear idiom, otherwise the recursively fused loop.
fn o1_push_loop(result: &mut Vec<IR>, instructions: &Vec<IR>)
    ensures
        view_irs(final(result)@) == o1_rule_loop(
            view_irs(old(result)@),
            view_irs(instructions@),
        ),
    decreases size_of_irs(view_irs(instructions@)), 3int,
{
    if is_clear_body(instructions) {
        result.push(IR::Exact { x: 0, offset: 0 });
    } else {
        let body = o1_optimize_vec(instructions, false);
        result.push(IR::Loop { over: 0, instructions: body });
        proof {
            lemma_view_ir_loop(0, body);
        }
    }
}

/// Restores a popped instruction and appends a copy of the incoming one:
/// the outcome when no fusion rule applies.
fn push_back_and_copy(result: &mut Vec<IR>, last: IR, cur: &IR)
    ensures
        view_irs(final(result)@) == view_irs(old(result)@).push(view_ir(last)).push(
            view_ir(*cur),
        ),
{
    result.push(last);
    let c = copy_ir(cur);
    result.push(c);
}

/// Runs the fusion rules over one scope of instructions.
fn o1_optimize_vec(v: &Vec<IR>, program_start: bool) -> (r: Vec<IR>)
    ensures
        view_irs(r@) == o1_list(view_irs(v@), program_start),
    decreases size_of_irs(view_irs(v@)), 2int,
{
    let ghost init: Seq<SpecIr> = if program_start {
        seq![SpecIr::Exact { x: 0, offset: 0 }]
    } else {
        Seq::empty()
    };
    let mut result: Vec<IR> = Vec::new();
    if program_start {
        result.push(IR::Exact { x: 0, offset: 0 });
    }
    proof {
        assert(view_irs(result@) =~= init);
        assert(v@.subrange(0, 0) =~= Seq::<IR>::empty());
        assert(view_irs(v@.subrange(0, 0)) =~= Seq::<SpecIr>::empty());
    }
    let n = v.len();
    for idx in 0..n
        invariant
            n == v@.len(),
            view_irs(result@) == o1_fold(init, view_irs(v@.subrange(0, idx as int))),
    {
        proof {
            lemma_view_irs_len(v@);
            lemma_view_irs_index(v@, idx as int);
            lemma_size_of_irs_elem(view_irs(v@), idx as int);
            lemma_view_irs_push(v@.subrange(0, idx as int), v@[idx as int]);
            assert(v@.subrange(0, idx + 1) =~= v@.subrange(0, idx as int).push(
                v@[idx as int],
            ));
            lemma_o1_fold_push(
                init,
                view_irs(v@.subrange(0, idx as int)),
                view_ir(v@[idx as int]),
            );
        }
        let ghost acc0 = view_irs(result@);
        let ghost iv = view_ir(v@[idx as int]);
        let cur = &v[idx];
        if result.len() == 0 {
            let c = copy_ir(cur);
            let ghost r0 = result@;
            result.push(c);
            proof {
                lemma_view_irs_push(r0, c);
            }
        } else {
            let ghost r0 = result@;
            let last = result.pop().unwrap();
            proof {
                assert(r0 =~= result@.push(last));
                lemma_view_irs_push(result@, last);
                assert(view_ir(last) == acc0[acc0.len() - 1]);
                assert(view_irs(result@) =~= acc0.subrange(0, acc0.len() - 1));
            }
            let ghost rpop = result@;
            let ghost m = acc0.len() - 1;
            match (&last, cur) {
                (IR::Add { x: a, offset: ao }, IR::Add { x: b, offset: bo }) => {
                    if *ao == 0 && *bo == 0 {
                        let merged = IR::Add { x: a.wrapping_add(*b), offset: 0 };
                        result.push(merged);
                        proof {
                            lemma_view_irs_push(rpop, merged);
                            assert(view_irs(result@) =~= acc0.update(m, view_ir(merged)));
                        }
                    } else {
                        push_back_and_copy(&mut result, last, cur);
                        proof {
                            assert(view_irs(result@) =~= acc0.push(iv));
                        }
                    }
                },
                (IR::Move { over: a }, IR::Move { over: b }) => {
                    let merged = IR::Move { over: a.wrapping_add(*b) };
                    result.push(merged);
                    proof {
                        lemma_view_irs_push(rpop, merged);
                        assert(view_irs(result@) =~= acc0.update(m, view_ir(merged)));
                    }
                },
                (IR::Add { x: _, offset: ao }, IR::Read { offset: ro }) => {
                    if *ao == 0 && *ro == 0 {
                        let rd = IR::Read { offset: 0 };
                        result.push(rd);
                        proof {
                            lemma_view_irs_push(rpop, rd);
                            assert(view_irs(result@) =~= acc0.subrange(0, m).push(iv));
                        }
                    } else {
                        push_back_and_copy(&mut result, last, cur);
                        proof {
                            assert(view_irs(result@) =~= acc0.push(iv));
                        }
                    }
                },
                (IR::Exact { x: e, offset: eo }, IR::Read { offset: ro }) => {
                    if *e == 0 && *eo == 0 && *ro == 0 {
                        let rd = IR::Read { offset: 0 };
                        result.push(rd);
                        proof {
                            lemma_view_irs_push(rpop, rd);
                            assert(view_irs(result@) =~= acc0.subrange(0, m).push(iv));
                        }
                    } else {
                        push_back_and_copy(&mut result, last, cur);
                        proof {
                            assert(view_irs(result@) =~= acc0.push(iv));
                        }
                    }
                },
                (IR::Print { times: a, offset: ao }, IR::Print { times: b, offset: _ }) => {
                    let merged = IR::Print { times: a.wrapping_add(*b), offset: *ao };
                    result.push(merged);
                    proof {
                        lemma_view_irs_push(rpop, merged);
                        assert(view_irs(result@) =~= acc0.update(m, view_ir(merged)));
                    }
                },
                (
                    IR::Loop { over: lo, instructions: _ },
                    IR::Loop { over: co, instructions },
                ) => {
                    if *lo == 0 && *co == 0 {
                        result.push(last);
                        proof {
                            assert(result@ =~= r0);
                            assert(view_irs(result@) =~= acc0);
                        }
                    } else if *co == 0 {
                        result.push(last);
                        proof {
                            assert(result@ =~= r0);
                            assert(view_irs(result@) =~= acc0);
                            lemma_view_ir_loop(*co, *instructions);
                        }
                        o1_push_loop(&mut result, instructions);
                    } else {
                        push_back_and_copy(&mut result, last, cur);
                        proof {
                            assert(view_irs(result@) =~= acc0.push(iv));
                        }
                    }
                },
                (IR::Exact { x: e, offset: eo }, IR::Loop { over: co, instructions }) => {
                    if *e == 0 && *eo == 0 && *co == 0 {
                        result.push(last);
                        proof {
                            assert(result@ =~= r0);
                            assert(view_irs(result@) =~= acc0);
                        }
                    } else if *co == 0 {
                        result.push(last);
                        proof {
                            assert(result@ =~= r0);
                            assert(view_irs(result@) =~= acc0);
                            lemma_view_ir_loop(*co, *instructions);
                        }
                        o1_push_loop(&mut result, instructions);
                    } else {
                        push_back_and_copy(&mut result, last, cur);
                        proof {
                            assert(view_irs(result@) =~= acc0.push(iv));
                        }
                    }
                },
                (_, IR::Loop { over: co, instructions }) => {
                    if *co == 0 {
                        result.push(last);
                        proof {
                            assert(result@ =~= r0);
                            assert(view_irs(result@) =~= acc0);
                            lemma_view_ir_loop(*co, *instructions);
                        }
                        o1_push_loop(&mut result, instructions);
                    } else {
                        push_back_and_copy(&mut result, last, cur);
                        proof {
                            assert(view_irs(result@) =~= acc0.push(iv));
                        }
                    }
                },
                (_, _) => {
                    push_back_and_copy(&mut result, last, cur);
                    proof {
                        assert(view_irs(result@) =~= acc0.push(iv));
                    }
                },
            }
            proof {
                assert(view_irs(result@) == o1_push(acc0, iv));
            }
        }
    }
    proof {
        assert(v@.subrange(0, n as int) =~= v@);
    }
    let ghost folded = o1_fold(init, view_irs(v@));
    if program_start && result.len() > 0 {
        let strip = match &result[0] {
            IR::Exact { x, offset } => *x == 0 && *offset == 0,
            _ => false,
        };
        proof {
            lemma_view_irs_index(result@, 0);
        }
        if strip {
            let ghost pre = result@;
            let _first = result.remove(0);
            proof {
                assert(result@ =~= pre.subrange(1, pre.len() as int));
                assert(view_irs(result@) =~= folded.subrange(1, folded.len() as int));
            }
        }
    }
    result
}


/// Parses source text and fuses adjacent instructions: neighbouring
/// additions, moves and prints merge, writes that a read overwrites die,
/// unreachable loops are dropped, and the clear idiom becomes an exact
/// write of zero.
pub fn optimize_o1(bf: &str) -> (r: Result<Vec<IR>, OptimizerError>)
    ensures
        (match spec_o1(bf@) {
            Result::Ok(p) => r matches Ok(out) && view_irs(out@) == p,
            Result::Err(e) => r matches Err(e2) && e2 == e,
        }),
{
    let parsed = match optimize_o0(bf) {
        Result::Ok(p) => p,
        Result::Err(e) => {
            return Result::Err(e);
        },
    };
    let fused = o1_optimize_vec(&parsed, true);
    Result::Ok(remove_zero_moves_and_adds(&fused))
}

/// The abstract pending effect on one cell during straight-line analysis:
/// a net delta on an unknown base, or a fully known value.
pub enum SpecBehavior {
    Add(int),
    Exact(int),
}

/// The executable form of a pending cell effect.
#[derive(Debug, Clone, Copy)]
enum Behavior {
    Add(i32),
    Exact(i32),
}

/// The abstraction of one executable cell effect.
spec fn view_behavior(b: Behavior) -> SpecBehavior {
    match b {
        Behavior::Add(x) => SpecBehavior::Add(x as int),
        Behavior::Exact(x) => SpecBehavior::Exact(x as int),
    }
}

/// The abstraction of the executable behavior table.
spec fn view_table(m: Seq<(i32, Behavior)>) -> Seq<(int, SpecBehavior)> {
    Seq::new(m.len(), |j: int| (m[j].0 as int, view_behavior(m[j].1)))
}

/// The pending effect recorded for offset `k`: the first entry with that
/// key, if any.
pub open spec fn bh_get(m: Seq<(int, SpecBehavior)>, k: int) -> Option<SpecBehavior>
    decreases m.len(),
{
    if m.len() == 0 {
        Option::None
    } else if m[0].0 == k {
        Option::Some(m[0].1)
    } else {
        bh_get(m.subrange(1, m.len() as int), k)
    }
}

/// Records effect `b` for offset `k`: replaces the first entry with that
/// key in place, or appends a new entry.
pub open spec fn bh_set(m: Seq<(int, SpecBehavior)>, k: int, b: SpecBehavior) -> Seq<
    (int, SpecBehavior),
>
    decreases m.len(),
{
    if m.len() == 0 {
        seq![(k, b)]
    } else if m[0].0 == k {
        seq![(k, b)] + m.subrange(1, m.len() as int)
    } else {
        seq![m[0]] + bh_set(m.subrange(1, m.len() as int), k, b)
    }
}

/// Drops the entry for offset `k`, if any.
pub open spec fn bh_remove(m: Seq<(int, SpecBehavior)>, k: int) -> Seq<(int, SpecBehavior)>
    decreases m.len(),
{
    if m.len() == 0 {
        Seq::empty()
    } else if m[0].0 == k {
        m.subrange(1, m.len() as int)
    } else {
        seq![m[0]] + bh_remove(m.subrange(1, m.len() as int), k)
    }
}

/// The instruction that applies one pending effect to the cell at offset
/// `o`.
pub open spec fn behavior_ir(o: int, b: SpecBehavior) -> SpecIr {
    match b {
        SpecBehavior::Add(x) => SpecIr::Add { x, offset: o },
        SpecBehavior::Exact(x) => SpecIr::Exact { x, offset: o },
    }
}

/// All pending effects as instructions, in the order they were recorded.
pub open spec fn flush_behaviors(m: Seq<(int, SpecBehavior)>) -> Seq<SpecIr> {
    Seq::new(m.len(), |j: int| behavior_ir(m[j].0, m[j].1))
}

/// The running state of the cell-behavior pass over one straight-line
/// region: output so far, pending effects, and the pending relative move.
#[verifier::ext_equal]
pub struct O2State {
    pub result: Seq<SpecIr>,
    pub behaviors: Seq<(int, SpecBehavior)>,
    pub offset: int,
}

/// One step of the cell-behavior pass.  Moves only advance the pending
/// offset; additions and clears are absorbed into the behavior table; a
/// read drops and a print flushes the effect on its cell; a loop over a
/// cell known to be zero is dead, and any other stationary loop flushes
/// everything and restarts the region.  Instructions that first arise in
/// later passes are passed through unchanged; they do not occur in this
/// pass's input.
pub open spec fn o2_step(st: O2State, i: SpecIr) -> O2State
    decreases size_of_ir(i), 0int,
{
    match i {
        SpecIr::Move { over } => O2State { offset: wrap_add_i32(st.offset, over), ..st },
        SpecIr::Add { x, offset } => {
            if offset == 0 {
                let nb = match bh_get(st.behaviors, st.offset) {
                    Option::Some(SpecBehavior::Add(y)) => SpecBehavior::Add(wrap_add_i32(y, x)),
                    Option::Some(SpecBehavior::Exact(y)) => SpecBehavior::Exact(
                        wrap_add_i32(y, x),
                    ),
                    Option::None => SpecBehavior::Add(x),
                };
                O2State { behaviors: bh_set(st.behaviors, st.offset, nb), ..st }
            } else {
                O2State { result: st.result.push(i), ..st }
            }
        },
        SpecIr::Exact { x, offset } => {
            if x == 0 && offset == 0 {
                O2State {
                    behaviors: bh_set(st.behaviors, st.offset, SpecBehavior::Exact(0)),
                    ..st
                }
            } else {
                O2State { result: st.result.push(i), ..st }
            }
        },
        SpecIr::Read { offset } => {
            if offset == 0 {
                O2State {
                    behaviors: bh_remove(st.behaviors, st.offset),
                    result: st.result.push(SpecIr::Read { offset: st.offset }),
                    ..st
                }
            } else {
                O2State { result: st.result.push(i), ..st }
            }
        },
        SpecIr::Print { times, offset } => {
            if offset == 0 {
                let flushed: Seq<SpecIr> = match bh_get(st.behaviors, st.offset) {
                    Option::Some(b) => seq![behavior_ir(st.offset, b)],
                    Option::None => Seq::empty(),
                };
                O2State {
                    behaviors: bh_remove(st.behaviors, st.offset),
                    result: st.result + flushed + seq![
                        SpecIr::Print { times, offset: st.offset },
                    ],
                    ..st
                }
            } else {
                O2State { result: st.result.push(i), ..st }
            }
        },
        SpecIr::Loop { over, body } => {
            if over == 0 {
                if bh_get(st.behaviors, st.offset) == Option::Some(SpecBehavior::Exact(0)) {
                    st
                } else {
                    O2State {
                        result: st.result + flush_behaviors(st.behaviors) + seq![
                            SpecIr::Loop { over: st.offset, body: o2_list(body) },
                        ],
                        behaviors: Seq::empty(),
                        offset: 0,
                    }
                }
            } else {
                O2State { result: st.result.push(i), ..st }
            }
        },
        SpecIr::Mul { x: _, y: _, offset: _ } => O2State { result: st.result.push(i), ..st },
    }
}

/// The cell-behavior pass folded over a list, left to right.
pub open spec fn o2_fold(st: O2State, rest: Seq<SpecIr>) -> O2State
    decreases size_of_irs(rest), 1int,
{
    if rest.len() == 0 {
        st
    } else {
        let sub = rest.subrange(0, rest.len() - 1);
        let last = rest[rest.len() - 1];
        proof {
            lemma_size_of_ir_pos(last);
            lemma_size_of_irs_elem(rest, rest.len() - 1);
        }
        o2_step(o2_fold(st, sub), last)
    }
}

/// The cell-behavior pass over one scope: fold, then flush what is still
/// pending, then restore the data pointer with a final move.
pub open spec fn o2_list(v: Seq<SpecIr>) -> Seq<SpecIr>
    decreases size_of_irs(v), 2int,
{
    let st0 = O2State { result: Seq::empty(), behaviors: Seq::empty(), offset: 0 };
    let st = o2_fold(st0, v);
    st.result + flush_behaviors(st.behaviors) + (if st.offset != 0 {
        seq![SpecIr::Move { over: st.offset }]
    } else {
        Seq::<SpecIr>::empty()
    })
}

/// Unfolding of `o2_fold` over an appended element.
pub broadcast proof fn lemma_o2_fold_push(st: O2State, v: Seq<SpecIr>, x: SpecIr)
    ensures
        #![trigger o2_fold(st, v.push(x))]
        o2_fold(st, v.push(x)) == o2_step(o2_fold(st, v), x),
{
    let w = v.push(x);
    assert(w.subrange(0, w.len() - 1) =~= v);
}

/// What the second optimization level yields for a source text.
pub open spec fn spec_o2(s: Seq<char>) -> Result<Seq<SpecIr>, OptimizerError> {
    match spec_o1(s) {
        Result::Ok(p) => Result::Ok(filter_irs(o2_list(p))),
        Result::Err(e) => Result::Err(e),
    }
}

/// Looking up the first entry with key `k` finds position `j`.
proof fn lemma_bh_get_found(m: Seq<(int, SpecBehavior)>, k: int, j: int)
    requires
        0 <= j < m.len(),
        m[j].0 == k,
        forall|l: int| 0 <= l < j ==> m[l].0 != k,
    ensures
        bh_get(m, k) == Option::Some(m[j].1),
    decreases j,
{
    if j > 0 {
        let sub = m.subrange(1, m.len() as int);
        lemma_bh_get_found(sub, k, j - 1);
    }
}

/// Looking up a key that no entry holds finds nothing.
proof fn lemma_bh_get_missing(m: Seq<(int, SpecBehavior)>, k: int)
    requires
        forall|l: int| 0 <= l < m.len() ==> m[l].0 != k,
    ensures
        bh_get(m, k) is None,
    decreases m.len(),
{
    if m.len() > 0 {
        lemma_bh_get_missing(m.subrange(1, m.len() as int), k);
    }
}

/// Setting a key whose first entry stands at `j` updates that entry in
/// place.
proof fn lemma_bh_set_found(m: Seq<(int, SpecBehavior)>, k: int, b: SpecBehavior, j: int)
    requires
        0 <= j < m.len(),
        m[j].0 == k,
        forall|l: int| 0 <= l < j ==> m[l].0 != k,
    ensures
        bh_set(m, k, b) == m.update(j, (k, b)),
    decreases j,
{
    if j == 0 {
        assert(bh_set(m, k, b) =~= m.update(0, (k, b)));
    } else {
        let sub = m.subrange(1, m.len() as int);
        lemma_bh_set_found(sub, k, b, j - 1);
        assert(seq![m[0]] + sub.update(j - 1, (k, b)) =~= m.update(j, (k, b)));
    }
}

/// Setting a key that no entry holds appends a new entry.
proof fn lemma_bh_set_missing(m: Seq<(int, SpecBehavior)>, k: int, b: SpecBehavior)
    requires
        forall|l: int| 0 <= l < m.len() ==> m[l].0 != k,
    ensures
        bh_set(m, k, b) == m.push((k, b)),
    decreases m.len(),
{
    if m.len() == 0 {
        assert(bh_set(m, k, b) =~= m.push((k, b)));
    } else {
        let sub = m.subrange(1, m.len() as int);
        lemma_bh_set_missing(sub, k, b);
        assert(seq![m[0]] + sub.push((k, b)) =~= m.push((k, b)));
    }
}

/// Removing a key whose first entry stands at `j` removes that entry.
proof fn lemma_bh_remove_found(m: Seq<(int, SpecBehavior)>, k: int, j: int)
    requires
        0 <= j < m.len(),
        m[j].0 == k,
        forall|l: int| 0 <= l < j ==> m[l].0 != k,
    ensures
        bh_remove(m, k) == m.remove(j),
    decreases j,
{
    if j == 0 {
        assert(bh_remove(m, k) =~= m.remove(0));
    } else {
        let sub = m.subrange(1, m.len() as int);
        lemma_bh_remove_found(sub, k, j - 1);
        assert(seq![m[0]] + sub.remove(j - 1) =~= m.remove(j));
    }
}

/// Removing a key that no entry holds changes nothing.
proof fn lemma_bh_remove_missing(m: Seq<(int, SpecBehavior)>, k: int)
    requires
        forall|l: int| 0 <= l < m.len() ==> m[l].0 != k,
    ensures
        bh_remove(m, k) == m,
    decreases m.len(),
{
    if m.len() == 0 {
        assert(bh_remove(m, k) =~= m);
    } else {
        let sub = m.subrange(1, m.len() as int);
        lemma_bh_remove_missing(sub, k);
        assert(seq![m[0]] + sub =~= m);
    }
}

/// The recorded effect for offset `k` in the executable table.
fn table_get(m: &Vec<(i32, Behavior)>, k: i32) -> (r: Option<Behavior>)
    ensures
        (match r {
            Option::Some(b) => bh_get(view_table(m@), k as int) == Option::Some(
                view_behavior(b),
            ),
            Option::None => bh_get(view_table(m@), k as int) is None,
        }),
{
    let n = m.len();
    for j in 0..n
        invariant
            n == m@.len(),
            forall|l: int| 0 <= l < j ==> m@[l].0 != k,
    {
        if m[j].0 == k {
            proof {
                lemma_bh_get_found(view_table(m@), k as int, j as int);
            }
            return Option::Some(m[j].1);
        }
    }
    proof {
        lemma_bh_get_missing(view_table(m@), k as int);
    }
    Option::None
}

/// Records effect `b` for offset `k` in the executable table.
fn table_set(m: &mut Vec<(i32, Behavior)>, k: i32, b: Behavior)
    ensures
        view_table(final(m)@) == bh_set(view_table(old(m)@), k as int, view_behavior(b)),
{
    let n = m.len();
    for j in 0..n
        invariant
            n == m@.len(),
            m@ == old(m)@,
            forall|l: int| 0 <= l < j ==> m@[l].0 != k,
    {
        if m[j].0 == k {
            proof {
                lemma_bh_set_found(view_table(m@), k as int, view_behavior(b), j as int);
            }
            m[j] = (k, b);
            proof {
                assert(view_table(m@) =~= view_table(old(m)@).update(
                    j as int,
                    (k as int, view_behavior(b)),
                ));
            }
            return ;
        }
    }
    m.push((k, b));
    proof {
        lemma_bh_set_missing(view_table(old(m)@), k as int, view_behavior(b));
        assert(view_table(m@) =~= view_table(old(m)@).push((k as int, view_behavior(b))));
    }
}

/// Drops the entry for offset `k` from the executable table.
fn table_remove(m: &mut Vec<(i32, Behavior)>, k: i32)
    ensures
        view_table(final(m)@) == bh_remove(view_table(old(m)@), k as int),
{
    let n = m.len();
    for j in 0..n
        invariant
            n == m@.len(),
            m@ == old(m)@,
            forall|l: int| 0 <= l < j ==> m@[l].0 != k,
    {
        if m[j].0 == k {
            proof {
                lemma_bh_remove_found(view_table(m@), k as int, j as int);
            }
            let _entry = m.remove(j);
            proof {
                assert(view_table(m@) =~= view_table(old(m)@).remove(j as int));
            }
            return ;
        }
    }
    proof {
        lemma_bh_remove_missing(view_table(m@), k as int);
    }
}

/// Appends every pending effect, in recording order, as an instruction.
fn flush_table(result: &mut Vec<IR>, m: &Vec<(i32, Behavior)>)
    ensures
        view_irs(final(result)@) == view_irs(old(result)@) + flush_behaviors(view_table(m@)),
{
    let ghost fl = flush_behaviors(view_table(m@));
    proof {
        assert(view_irs(result@) =~= view_irs(result@) + fl.subrange(0, 0));
    }
    let n = m.len();
    for j in 0..n
        invariant
            n == m@.len(),
            fl == flush_behaviors(view_table(m@)),
            fl.len() == n,
            view_irs(result@) == view_irs(old(result)@) + fl.subrange(0, j as int),
    {
        let (o, b) = m[j];
        match b {
            Behavior::Add(x) => result.push(IR::Add { x, offset: o }),
            Behavior::Exact(x) => result.push(IR::Exact { x, offset: o }),
        }
        proof {
            assert(view_ir(result@[result@.len() - 1]) == fl[j as int]);
            assert(fl.subrange(0, j + 1) =~= fl.subrange(0, j as int).push(fl[j as int]));
            assert(view_irs(result@) =~= view_irs(old(result)@) + fl.subrange(0, j + 1));
        }
    }
    proof {
        assert(fl.subrange(0, n as int) =~= fl);
    }
}

/// Runs the cell-behavior pass over one scope of instructions.
fn o2_optimize_vec(v: &Vec<IR>) -> (r: Vec<IR>)
    ensures
        view_irs(r@) == o2_list(view_irs(v@)),
    decreases size_of_irs(view_irs(v@)), 2int,
{
    let ghost st0 = O2State { result: Seq::empty(), behaviors: Seq::empty(), offset: 0 };
    let mut result: Vec<IR> = Vec::new();
    let mut behaviors: Vec<(i32, Behavior)> = Vec::new();
    let mut offset: i32 = 0;
    proof {
        assert(view_irs(result@) =~= st0.result);
        assert(view_table(behaviors@) =~= st0.behaviors);
        assert(v@.subrange(0, 0) =~= Seq::<IR>::empty());
        assert(view_irs(v@.subrange(0, 0)) =~= Seq::<SpecIr>::empty());
    }
    let n = v.len();
    for idx in 0..n
        invariant
            n == v@.len(),
            view_irs(result@) == o2_fold(st0, view_irs(v@.subrange(0, idx as int))).result,
            view_table(behaviors@) == o2_fold(
                st0,
                view_irs(v@.subrange(0, idx as int)),
            ).behaviors,
            offset as int == o2_fold(st0, view_irs(v@.subrange(0, idx as int))).offset,
    {
        proof {
            lemma_view_irs_len(v@);
            lemma_view_irs_index(v@, idx as int);
            lemma_size_of_irs_elem(view_irs(v@), idx as int);
            lemma_view_irs_push(v@.subrange(0, idx as int), v@[idx as int]);
            assert(v@.subrange(0, idx + 1) =~= v@.subrange(0, idx as int).push(
                v@[idx as int],
            ));
            lemma_o2_fold_push(
                st0,
                view_irs(v@.subrange(0, idx as int)),
                view_ir(v@[idx as int]),
            );
        }
        let ghost stp = o2_fold(st0, view_irs(v@.subrange(0, idx as int)));
        let ghost iv = view_ir(v@[idx as int]);
        let cur = &v[idx];
        match cur {
            IR::Move { over } => {
                offset = offset.wrapping_add(*over);
            },
            IR::Add { x, offset: o } => {
                if *o == 0 {
                    let found = table_get(&behaviors, offset);
                    let nb = match found {
                        Option::Some(Behavior::Add(y)) => Behavior::Add(y.wrapping_add(*x)),
                        Option::Some(Behavior::Exact(y)) => Behavior::Exact(y.wrapping_add(*x)),
                        Option::None => Behavior::Add(*x),
                    };
                    table_set(&mut behaviors, offset, nb);
                } else {
                    result.push(IR::Add { x: *x, offset: *o });
                }
            },
            IR::Exact { x, offset: o } => {
                if *x == 0 && *o == 0 {
                    table_set(&mut behaviors, offset, Behavior::Exact(0));
                } else {
                    result.push(IR::Exact { x: *x, offset: *o });
                }
            },
            IR::Read { offset: o } => {
                if *o == 0 {
                    table_remove(&mut behaviors, offset);
                    result.push(IR::Read { offset });
                } else {
                    result.push(IR::Read { offset: *o });
                }
            },
            IR::Print { times, offset: o } => {
                if *o == 0 {
                    let found = table_get(&behaviors, offset);
                    match found {
                        Option::Some(Behavior::Add(x2)) => {
                            result.push(IR::Add { x: x2, offset });
                        },
                        Option::Some(Behavior::Exact(x2)) => {
                            result.push(IR::Exact { x: x2, offset });
                        },
                        Option::None => {},
                    }
                    table_remove(&mut behaviors, offset);
                    result.push(IR::Print { times: *times, offset });
                    proof {
                        assert(view_irs(result@) =~= o2_step(stp, iv).result);
                    }
                } else {
                    result.push(IR::Print { times: *times, offset: *o });
                }
            },
            IR::Loop { over, instructions } => {
                if *over == 0 {
                    let found = table_get(&behaviors, offset);
                    let dead = match found {
                        Option::Some(Behavior::Exact(y)) => y == 0,
                        _ => false,
                    };
                    if dead {
                        proof {
                            assert(o2_step(stp, iv) == stp);
                        }
                    } else {
                        flush_table(&mut result, &behaviors);
                        behaviors.clear();
                        proof {
                            lemma_view_ir_loop(*over, *instructions);
                            lemma_size_of_ir_pos(iv);
                        }
                        let body = o2_optimize_vec(instructions);
                        result.push(IR::Loop { over: offset, instructions: body });
                        offset = 0;
                        proof {
                            lemma_view_ir_loop(
                                stp.offset as i32,
                                result@[result@.len() - 1]->instructions,
                            );
                            assert(view_irs(result@) =~= o2_step(stp, iv).result);
                            assert(view_table(behaviors@) =~= Seq::<(int, SpecBehavior)>::empty());
                        }
                    }
                } else {
                    let c = copy_ir(cur);
                    result.push(c);
                }
            },
            IR::Mul { x, y, offset: o } => {
                result.push(IR::Mul { x: *x, y: *y, offset: *o });
            },
        }
        proof {
            assert(view_irs(result@) == o2_step(stp, iv).result);
            assert(view_table(behaviors@) == o2_step(stp, iv).behaviors);
            assert(offset as int == o2_step(stp, iv).offset);
        }
    }
    proof {
        assert(v@.subrange(0, n as int) =~= v@);
    }
    flush_table(&mut result, &behaviors);
    if offset != 0 {
        result.push(IR::Move { over: offset });
    }
    proof {
        assert(view_irs(result@) =~= o2_list(view_irs(v@)));
    }
    result
}

/// Parses and fuses source text, then hoists moves into instruction
/// offsets within each straight-line region and merges non-adjacent writes
/// to the same cell.
pub fn optimize_o2(bf: &str) -> (r: Result<Vec<IR>, OptimizerError>)
    ensures
        (match spec_o2(bf@) {
            Result::Ok(p) => r matches Ok(out) && view_irs(out@) == p,
            Result::Err(e) => r matches Err(e2) && e2 == e,
        }),
{
    let fused = match optimize_o1(bf) {
        Result::Ok(p) => p,
        Result::Err(e) => {
            return Result::Err(e);
        },
    };
    let hoisted = o2_optimize_vec(&fused);
    Result::Ok(remove_zero_moves_and_adds(&hoisted))
}

/// A loop body that the multiply pass lowers: additions only, among them a
/// plain decrement of the loop counter.  A body that also writes exact
/// values is left as a loop, since a one-shot lowering of such a write
/// would not preserve meaning when the loop runs zero times.
pub open spec fn is_multiply_loop(body: Seq<SpecIr>) -> bool {
    (forall|j: int| 0 <= j < body.len() ==> #[trigger] body[j] matches SpecIr::Add { x: _, offset: _ })
        && (exists|j: int| 0 <= j < body.len() && #[trigger] body[j] == (SpecIr::Add { x: -1, offset: 0 }))
}

/// The lowering of a multiply-loop body: each addition of `x` at `off`
/// becomes `cell[p + over + off] += cell[p + over] * x`, and the counter
/// decrement disappears.
pub open spec fn lower_body(body: Seq<SpecIr>, over: int) -> Seq<SpecIr>
    decreases body.len(),
{
    if body.len() == 0 {
        Seq::empty()
    } else {
        let rest = lower_body(body.subrange(0, body.len() - 1), over);
        match body[body.len() - 1] {
            SpecIr::Add { x, offset } => {
                if x == -1 && offset == 0 {
                    rest
                } else {
                    rest.push(SpecIr::Mul { x: offset, y: x, offset: over })
                }
            },
            _ => rest.push(body[body.len() - 1]),
        }
    }
}

/// What the multiply pass makes of one instruction: a recognized loop is
/// lowered to multiplies followed by clearing the counter and the loop's
/// own move; any other loop is walked recursively; leaves pass through.
pub open spec fn o3_one(i: SpecIr) -> Seq<SpecIr>
    decreases size_of_ir(i), 0int,
{
    match i {
        SpecIr::Loop { over, body } => {
            if is_multiply_loop(body) {
                lower_body(body, over) + seq![
                    SpecIr::Exact { x: 0, offset: over },
                    SpecIr::Move { over },
                ]
            } else {
                seq![SpecIr::Loop { over, body: o3_list(body) }]
            }
        },
        _ => seq![i],
    }
}

/// The multiply pass over a list of instructions.
pub open spec fn o3_list(v: Seq<SpecIr>) -> Seq<SpecIr>
    decreases size_of_irs(v), 1int,
{
    if v.len() == 0 {
        Seq::empty()
    } else {
        let sub = v.subrange(0, v.len() - 1);
        let last = v[v.len() - 1];
        proof {
            lemma_size_of_ir_pos(last);
            lemma_size_of_irs_elem(v, v.len() - 1);
        }
        o3_list(sub) + o3_one(last)
    }
}

/// Unfolding of `o3_list` over an appended element.
pub broadcast proof fn lemma_o3_list_push(v: Seq<SpecIr>, x: SpecIr)
    ensures
        #![trigger o3_list(v.push(x))]
        o3_list(v.push(x)) == o3_list(v) + o3_one(x),
{
    let w = v.push(x);
    assert(w.subrange(0, w.len() - 1) =~= v);
}

/// One step of move folding: moves accumulate into `running`, every other
/// instruction is emitted with its offset displaced by `running`, and a
/// loop consumes the displacement into its own pre-move.
pub open spec fn mm_step(result: Seq<SpecIr>, running: int, i: SpecIr) -> (Seq<SpecIr>, int)
    decreases size_of_ir(i), 0int,
{
    match i {
        SpecIr::Move { over } => (result, wrap_add_i32(running, over)),
        SpecIr::Add { x, offset } => (
            result.push(SpecIr::Add { x, offset: wrap_add_i32(offset, running) }),
            running,
        ),
        SpecIr::Print { times, offset } => (
            result.push(SpecIr::Print { times, offset: wrap_add_i32(offset, running) }),
            running,
        ),
        SpecIr::Read { offset } => (
            result.push(SpecIr::Read { offset: wrap_add_i32(offset, running) }),
            running,
        ),
        SpecIr::Exact { x, offset } => (
            result.push(SpecIr::Exact { x, offset: wrap_add_i32(offset, running) }),
            running,
        ),
        SpecIr::Mul { x, y, offset } => (
            result.push(SpecIr::Mul { x, y, offset: wrap_add_i32(offset, running) }),
            running,
        ),
        SpecIr::Loop { over, body } => (
            result.push(SpecIr::Loop { over: wrap_add_i32(over, running), body: mm_list(body) }),
            0,
        ),
    }
}

/// Move folding folded over a list, left to right.
pub open spec fn mm_fold(result: Seq<SpecIr>, running: int, rest: Seq<SpecIr>) -> (
    Seq<SpecIr>,
    int,
)
    decreases size_of_irs(rest), 1int,
{
    if rest.len() == 0 {
        (result, running)
    } else {
        let sub = rest.subrange(0, rest.len() - 1);
        let last = rest[rest.len() - 1];
        proof {
            lemma_size_of_ir_pos(last);
            lemma_size_of_irs_elem(rest, rest.len() - 1);
        }
        let folded = mm_fold(result, running, sub);
        mm_step(folded.0, folded.1, last)
    }
}

/// Move folding over one scope: fold, then emit a final move for whatever
/// displacement is still pending.
pub open spec fn mm_list(v: Seq<SpecIr>) -> Seq<SpecIr>
    decreases size_of_irs(v), 2int,
{
    let folded = mm_fold(Seq::empty(), 0, v);
    if folded.1 != 0 {
        folded.0.push(SpecIr::Move { over: folded.1 })
    } else {
        folded.0
    }
}

/// Unfolding of `mm_fold` over an appended element.
pub broadcast proof fn lemma_mm_fold_push(
    result: Seq<SpecIr>,
    running: int,
    v: Seq<SpecIr>,
    x: SpecIr,
)
    ensures
        #![trigger mm_fold(result, running, v.push(x))]
        mm_fold(result, running, v.push(x)) == {
            let folded = mm_fold(result, running, v);
            mm_step(folded.0, folded.1, x)
        },
{
    let w = v.push(x);
    assert(w.subrange(0, w.len() - 1) =~= v);
}

/// What the third optimization level yields for a source text.
pub open spec fn spec_o3(s: Seq<char>) -> Result<Seq<SpecIr>, OptimizerError> {
    match spec_o2(s) {
        Result::Ok(p) => Result::Ok(filter_irs(mm_list(o3_list(p)))),
        Result::Err(e) => Result::Err(e),
    }
}

/// Parse totality: what parsing yields is always one of exactly two
/// things, a tree or the bracket error.  That the parse also terminates on
/// every input is inherent: `optimize_o0` is a verified function, and
/// every verified function terminates.
pub proof fn lemma_parse_total(s: Seq<char>)
    ensures
        spec_o0(s) is Ok || spec_o0(s) == Result::<Seq<SpecIr>, OptimizerError>::Err(
            OptimizerError::UnbalancedBrackets,
        ),
{
}

/// The optimizer levels agree on parse errors: a level fails exactly when
/// plain parsing fails, and with the same error.
pub proof fn lemma_optimizer_error_agreement(s: Seq<char>)
    ensures
        spec_o1(s) is Err <==> spec_o0(s) is Err,
        spec_o2(s) is Err <==> spec_o0(s) is Err,
        spec_o3(s) is Err <==> spec_o0(s) is Err,
        spec_o0(s) is Err ==> spec_o1(s) == spec_o0(s) && spec_o2(s) == spec_o0(s) && spec_o3(s)
            == spec_o0(s),
{
}

/// No instruction in the list is a zero op, through loop bodies too.
pub open spec fn no_zero_ops(v: Seq<SpecIr>) -> bool
    decreases size_of_irs(v), 1int,
{
    if v.len() == 0 {
        true
    } else {
        let sub = v.subrange(0, v.len() - 1);
        let last = v[v.len() - 1];
        proof {
            lemma_size_of_ir_pos(last);
        }
        no_zero_ops(sub) && no_zero_op_one(last)
    }
}

/// One instruction is not a zero op, nor holds one in its body.
pub open spec fn no_zero_op_one(i: SpecIr) -> bool
    decreases size_of_ir(i), 0int,
{
    !is_zero_op(i) && (match i {
        SpecIr::Loop { over: _, body } => no_zero_ops(body),
        _ => true,
    })
}

/// Unfolding of `no_zero_ops` over an appended element.
pub broadcast proof fn lemma_no_zero_ops_push(v: Seq<SpecIr>, x: SpecIr)
    ensures
        #![trigger no_zero_ops(v.push(x))]
        no_zero_ops(v.push(x)) == (no_zero_ops(v) && no_zero_op_one(x)),
{
    let w = v.push(x);
    assert(w.subrange(0, w.len() - 1) =~= v);
}

/// Freedom from zero ops splits over concatenation.
pub proof fn lemma_no_zero_ops_concat(a: Seq<SpecIr>, b: Seq<SpecIr>)
    ensures
        no_zero_ops(a + b) == (no_zero_ops(a) && no_zero_ops(b)),
    decreases b.len(),
{
    if b.len() == 0 {
        assert(a + b =~= a);
    } else {
        let bsub = b.subrange(0, b.len() - 1);
        lemma_no_zero_ops_concat(a, bsub);
        let w = a + b;
        assert(w.subrange(0, w.len() - 1) =~= a + bsub);
        assert(w[w.len() - 1] == b[b.len() - 1]);
    }
}

/// The zero-op filter leaves no zero op behind, anywhere in the tree.
pub proof fn lemma_filter_no_zero_ops(v: Seq<SpecIr>)
    ensures
        no_zero_ops(filter_irs(v)),
    decreases size_of_irs(v), 1int,
{
    if v.len() == 0 {
    } else {
        let sub = v.subrange(0, v.len() - 1);
        let last = v[v.len() - 1];
        lemma_size_of_ir_pos(last);
        lemma_size_of_irs_elem(v, v.len() - 1);
        lemma_filter_no_zero_ops(sub);
        lemma_filter_one_no_zero_ops(last);
        lemma_no_zero_ops_concat(filter_irs(sub), filter_one(last));
    }
}

/// The filter's image of one instruction holds no zero op.
pub proof fn lemma_filter_one_no_zero_ops(i: SpecIr)
    ensures
        no_zero_ops(filter_one(i)),
    decreases size_of_ir(i), 0int,
{
    if is_zero_op(i) {
    } else {
        match i {
            SpecIr::Loop { over, body } => {
                lemma_filter_no_zero_ops(body);
                let l = SpecIr::Loop { over, body: filter_irs(body) };
                assert(filter_one(i) =~= Seq::<SpecIr>::empty().push(l));
                lemma_no_zero_ops_push(Seq::<SpecIr>::empty(), l);
            },
            _ => {
                assert(filter_one(i) =~= Seq::<SpecIr>::empty().push(i));
                lemma_no_zero_ops_push(Seq::<SpecIr>::empty(), i);
            },
        }
    }
}

/// Zero-op absence: no tree that any optimization level emits contains an
/// addition of zero or a move by zero.
pub proof fn lemma_zero_op_absence(s: Seq<char>)
    ensures
        spec_o0(s) matches Ok(p) ==> no_zero_ops(p),
        spec_o1(s) matches Ok(p) ==> no_zero_ops(p),
        spec_o2(s) matches Ok(p) ==> no_zero_ops(p),
        spec_o3(s) matches Ok(p) ==> no_zero_ops(p),
{
    if spec_o0(s) is Ok {
        let stack = o0_fold(s)->Some_0;
        lemma_filter_no_zero_ops(stack[0]);
    }
    if spec_o1(s) is Ok {
        let p0 = spec_o0(s)->Ok_0;
        lemma_filter_no_zero_ops(o1_list(p0, true));
    }
    if spec_o2(s) is Ok {
        let p1 = spec_o1(s)->Ok_0;
        lemma_filter_no_zero_ops(o2_list(p1));
    }
    if spec_o3(s) is Ok {
        let p2 = spec_o2(s)->Ok_0;
        lemma_filter_no_zero_ops(mm_list(o3_list(p2)));
    }
}

/// One instruction acts on the current cell alone: a non-loop op carries
/// offset zero, a loop carries no pre-move and a stationary body, and no
/// multiply occurs.  Parsing and fusion only produce such instructions;
/// offsets, pre-moves and multiplies first arise in the later levels.
pub open spec fn stationary_one(i: SpecIr) -> bool
    decreases size_of_ir(i), 0int,
{
    match i {
        SpecIr::Add { x: _, offset } => offset == 0,
        SpecIr::Move { over: _ } => true,
        SpecIr::Print { times: _, offset } => offset == 0,
        SpecIr::Read { offset } => offset == 0,
        SpecIr::Exact { x: _, offset } => offset == 0,
        SpecIr::Loop { over, body } => over == 0 && stationary_irs(body),
        SpecIr::Mul { x: _, y: _, offset: _ } => false,
    }
}

/// Every instruction in the list is stationary.
pub open spec fn stationary_irs(v: Seq<SpecIr>) -> bool
    decreases size_of_irs(v), 1int,
{
    if v.len() == 0 {
        true
    } else {
        let sub = v.subrange(0, v.len() - 1);
        let last = v[v.len() - 1];
        proof {
            lemma_size_of_ir_pos(last);
        }
        stationary_irs(sub) && stationary_one(last)
    }
}

/// A list is stationary exactly when each of its elements is.
proof fn lemma_stationary_elems(v: Seq<SpecIr>)
    ensures
        stationary_irs(v) == (forall|j: int|
            0 <= j < v.len() ==> #[trigger] stationary_one(v[j])),
    decreases v.len(),
{
    if v.len() > 0 {
        let sub = v.subrange(0, v.len() - 1);
        lemma_stationary_elems(sub);
        if stationary_irs(v) {
            assert forall|j: int|
                0 <= j < v.len() implies #[trigger] stationary_one(v[j]) by {
                if j < v.len() - 1 {
                    assert(stationary_one(sub[j]));
                    assert(sub[j] == v[j]);
                }
            }
        }
        if forall|j: int| 0 <= j < v.len() ==> #[trigger] stationary_one(v[j]) {
            assert forall|j: int|
                0 <= j < sub.len() implies #[trigger] stationary_one(sub[j]) by {
                assert(sub[j] == v[j]);
                assert(stationary_one(v[j]));
            }
            assert(stationary_one(v[v.len() - 1]));
        }
    }
}

/// Unfolding of `stationary_irs` over an appended element.
proof fn lemma_stationary_push(v: Seq<SpecIr>, x: SpecIr)
    ensures
        stationary_irs(v.push(x)) == (stationary_irs(v) && stationary_one(x)),
{
    let w = v.push(x);
    assert(w.subrange(0, w.len() - 1) =~= v);
}

/// The zero-op filter keeps a stationary list stationary.
proof fn lemma_filter_stationary(v: Seq<SpecIr>)
    requires
        stationary_irs(v),
    ensures
        stationary_irs(filter_irs(v)),
    decreases size_of_irs(v), 1int,
{
    if v.len() > 0 {
        let sub = v.subrange(0, v.len() - 1);
        let last = v[v.len() - 1];
        lemma_size_of_ir_pos(last);
        lemma_size_of_irs_elem(v, v.len() - 1);
        lemma_filter_stationary(sub);
        lemma_filter_one_stationary(last);
        lemma_stationary_concat(filter_irs(sub), filter_one(last));
    }
}

/// The filter's image of one stationary instruction is stationary.
proof fn lemma_filter_one_stationary(i: SpecIr)
    requires
        stationary_one(i),
    ensures
        stationary_irs(filter_one(i)),
    decreases size_of_ir(i), 0int,
{
    if !is_zero_op(i) {
        match i {
            SpecIr::Loop { over, body } => {
                lemma_filter_stationary(body);
                let l = SpecIr::Loop { over, body: filter_irs(body) };
                assert(filter_one(i) =~= Seq::<SpecIr>::empty().push(l));
                lemma_stationary_push(Seq::<SpecIr>::empty(), l);
            },
            _ => {
                assert(filter_one(i) =~= Seq::<SpecIr>::empty().push(i));
                lemma_stationary_push(Seq::<SpecIr>::empty(), i);
            },
        }
    }
}

/// Being stationary splits over concatenation.
proof fn lemma_stationary_concat(a: Seq<SpecIr>, b: Seq<SpecIr>)
    ensures
        stationary_irs(a + b) == (stationary_irs(a) && stationary_irs(b)),
    decreases b.len(),
{
    if b.len() == 0 {
        assert(a + b =~= a);
    } else {
        let bsub = b.subrange(0, b.len() - 1);
        lemma_stationary_concat(a, bsub);
        let w = a + b;
        assert(w.subrange(0, w.len() - 1) =~= a + bsub);
        assert(w[w.len() - 1] == b[b.len() - 1]);
    }
}

/// Every scope that the bracket parse builds is stationary.
proof fn lemma_o0_fold_stationary(s: Seq<char>)
    ensures
        o0_fold(s) matches Some(stack) ==> forall|k: int|
            0 <= k < stack.len() ==> #[trigger] stationary_irs(stack[k]),
    decreases s.len(),
{
    if s.len() > 0 {
        let sub = s.subrange(0, s.len() - 1);
        lemma_o0_fold_stationary(sub);
        if o0_fold(sub) is Some {
            let stack = o0_fold(sub)->Some_0;
            let c = s[s.len() - 1];
            if c == '[' {
                assert forall|k: int|
                    0 <= k < stack.push(Seq::empty()).len() implies #[trigger] stationary_irs(
                    stack.push(Seq::empty())[k]) by {
                    if k < stack.len() {
                        assert(stationary_irs(stack[k]));
                    } else {
                        assert(stationary_irs(Seq::<SpecIr>::empty()));
                    }
                }
            } else if c == ']' {
                if stack.len() >= 2 {
                    let body = stack[stack.len() - 1];
                    let rest = stack.subrange(0, stack.len() - 1);
                    let k0 = rest.len() - 1;
                    let lp = SpecIr::Loop { over: 0, body };
                    let upd = rest.update(k0, rest[k0].push(lp));
                    assert(stationary_irs(stack[k0]));
                    assert(stationary_irs(stack[stack.len() - 1]));
                    lemma_stationary_push(rest[k0], lp);
                    assert forall|k: int|
                        0 <= k < upd.len() implies #[trigger] stationary_irs(upd[k]) by {
                        if k != k0 {
                            assert(upd[k] == stack[k]);
                            assert(stationary_irs(stack[k]));
                        }
                    }
                }
            } else if is_bf_leaf(c) {
                if stack.len() >= 1 {
                    let k0 = stack.len() - 1;
                    let upd = stack.update(k0, stack[k0].push(leaf_ir(c)));
                    assert(stationary_irs(stack[k0]));
                    lemma_stationary_push(stack[k0], leaf_ir(c));
                    assert forall|k: int|
                        0 <= k < upd.len() implies #[trigger] stationary_irs(upd[k]) by {
                        if k != k0 {
                            assert(upd[k] == stack[k]);
                            assert(stationary_irs(stack[k]));
                        }
                    }
                }
            }
        }
    }
}

/// One fusion step keeps the output stationary.
proof fn lemma_o1_push_stationary(acc: Seq<SpecIr>, i: SpecIr)
    requires
        stationary_irs(acc),
        stationary_one(i),
    ensures
        stationary_irs(o1_push(acc, i)),
    decreases size_of_ir(i), 0int,
{
    lemma_size_of_ir_pos(i);
    if acc.len() == 0 {
        lemma_stationary_push(acc, i);
    } else {
        let m = acc.len() - 1;
        let last = acc[m];
        lemma_stationary_elems(acc);
        assert(stationary_one(acc[m]));
        let r = o1_push(acc, i);
        match (last, i) {
            (SpecIr::Add { x: a, offset: ao }, SpecIr::Add { x: b, offset: bo }) => {
                if ao == 0 && bo == 0 {
                    lemma_stationary_update(acc, m, SpecIr::Add {
                        x: wrap_add_i32(a, b),
                        offset: 0,
                    });
                } else {
                    lemma_stationary_push(acc, i);
                }
            },
            (SpecIr::Move { over: a }, SpecIr::Move { over: b }) => {
                lemma_stationary_update(acc, m, SpecIr::Move { over: wrap_add_i32(a, b) });
            },
            (SpecIr::Add { x: _, offset: ao }, SpecIr::Read { offset: ro }) => {
                if ao == 0 && ro == 0 {
                    lemma_stationary_subrange_prefix(acc, m);
                    lemma_stationary_push(acc.subrange(0, m), i);
                } else {
                    lemma_stationary_push(acc, i);
                }
            },
            (SpecIr::Exact { x: e, offset: eo }, SpecIr::Read { offset: ro }) => {
                if e == 0 && eo == 0 && ro == 0 {
                    lemma_stationary_subrange_prefix(acc, m);
                    lemma_stationary_push(acc.subrange(0, m), i);
                } else {
                    lemma_stationary_push(acc, i);
                }
            },
            (
                SpecIr::Print { times: a, offset: ao },
                SpecIr::Print { times: b, offset: _ },
            ) => {
                lemma_stationary_update(acc, m, SpecIr::Print {
                    times: wrap_add_usize(a, b),
                    offset: ao,
                });
            },
            (SpecIr::Loop { over: lo, body: _ }, SpecIr::Loop { over: co, body }) => {
                if lo == 0 && co == 0 {
                } else if co == 0 {
                    lemma_o1_rule_loop_stationary(acc, body);
                } else {
                    lemma_stationary_push(acc, i);
                }
            },
            (SpecIr::Exact { x: e, offset: eo }, SpecIr::Loop { over: co, body }) => {
                if e == 0 && eo == 0 && co == 0 {
                } else if co == 0 {
                    lemma_o1_rule_loop_stationary(acc, body);
                } else {
                    lemma_stationary_push(acc, i);
                }
            },
            (_, SpecIr::Loop { over: co, body }) => {
                if co == 0 {
                    lemma_o1_rule_loop_stationary(acc, body);
                } else {
                    lemma_stationary_push(acc, i);
                }
            },
            (_, _) => {
                lemma_stationary_push(acc, i);
            },
        }
    }
}

/// Updating one element of a stationary list with a stationary
/// instruction keeps it stationary.
proof fn lemma_stationary_update(v: Seq<SpecIr>, m: int, x: SpecIr)
    requires
        stationary_irs(v),
        0 <= m < v.len(),
        stationary_one(x),
    ensures
        stationary_irs(v.update(m, x)),
{
    lemma_stationary_elems(v);
    lemma_stationary_elems(v.update(m, x));
    assert forall|j: int|
        0 <= j < v.len() implies #[trigger] stationary_one(v.update(m, x)[j]) by {
        if j != m {
            assert(stationary_one(v[j]));
        }
    }
}

/// A prefix of a stationary list is stationary.
proof fn lemma_stationary_subrange_prefix(v: Seq<SpecIr>, m: int)
    requires
        stationary_irs(v),
        0 <= m <= v.len(),
    ensures
        stationary_irs(v.subrange(0, m)),
{
    lemma_stationary_elems(v);
    lemma_stationary_elems(v.subrange(0, m));
    assert forall|j: int|
        0 <= j < m implies #[trigger] stationary_one(v.subrange(0, m)[j]) by {
        assert(stationary_one(v[j]));
    }
}

/// The fusion of a stationary loop body stays stationary.
proof fn lemma_o1_rule_loop_stationary(acc: Seq<SpecIr>, body: Seq<SpecIr>)
    requires
        stationary_irs(acc),
        stationary_irs(body),
    ensures
        stationary_irs(o1_rule_loop(acc, body)),
    decreases size_of_irs(body), 3int,
{
    if is_clear_loop_body(body) {
        lemma_stationary_push(acc, SpecIr::Exact { x: 0, offset: 0 });
    } else {
        lemma_o1_list_stationary(body, false);
        lemma_stationary_push(acc, SpecIr::Loop { over: 0, body: o1_list(body, false) });
    }
}

/// The fusion fold keeps a stationary accumulator stationary.
proof fn lemma_o1_fold_stationary(acc: Seq<SpecIr>, rest: Seq<SpecIr>)
    requires
        stationary_irs(acc),
        stationary_irs(rest),
    ensures
        stationary_irs(o1_fold(acc, rest)),
    decreases size_of_irs(rest), 1int,
{
    if rest.len() > 0 {
        let sub = rest.subrange(0, rest.len() - 1);
        let last = rest[rest.len() - 1];
        lemma_size_of_ir_pos(last);
        lemma_size_of_irs_elem(rest, rest.len() - 1);
        lemma_o1_fold_stationary(acc, sub);
        lemma_o1_push_stationary(o1_fold(acc, sub), last);
    }
}

/// One whole fusion pass keeps a stationary list stationary.
proof fn lemma_o1_list_stationary(v: Seq<SpecIr>, program_start: bool)
    requires
        stationary_irs(v),
    ensures
        stationary_irs(o1_list(v, program_start)),
    decreases size_of_irs(v), 2int,
{
    let init: Seq<SpecIr> = if program_start {
        seq![SpecIr::Exact { x: 0, offset: 0 }]
    } else {
        Seq::empty()
    };
    assert(stationary_irs(init)) by {
        if program_start {
            lemma_stationary_push(Seq::<SpecIr>::empty(), SpecIr::Exact { x: 0, offset: 0 });
            assert(Seq::<SpecIr>::empty().push(SpecIr::Exact { x: 0, offset: 0 }) =~= init);
        }
    }
    lemma_o1_fold_stationary(init, v);
    let folded = o1_fold(init, v);
    if program_start && folded.len() > 0 && folded[0] == (SpecIr::Exact { x: 0, offset: 0 }) {
        lemma_stationary_elems(folded);
        lemma_stationary_elems(folded.subrange(1, folded.len() as int));
        assert forall|j: int|
            0 <= j < folded.len() - 1 implies #[trigger] stationary_one(
            folded.subrange(1, folded.len() as int)[j]) by {
            assert(stationary_one(folded[j + 1]));
        }
    }
}

/// The first two levels only emit stationary instructions: every non-loop
/// op acts at offset zero, every loop is entered without a pre-move, and
/// no multiply occurs yet.
pub proof fn lemma_early_levels_stationary(s: Seq<char>)
    ensures
        spec_o0(s) matches Ok(p) ==> stationary_irs(p),
        spec_o1(s) matches Ok(p) ==> stationary_irs(p),
{
    lemma_o0_fold_stationary(s);
    if spec_o0(s) is Ok {
        let stack = o0_fold(s)->Some_0;
        lemma_filter_stationary(stack[0]);
    }
    if spec_o1(s) is Ok {
        let p0 = spec_o0(s)->Ok_0;
        lemma_o1_list_stationary(p0, true);
        lemma_filter_stationary(o1_list(p0, true));
    }
}

/// A pair of neighbouring instructions that the fusion rules would merge
/// into one: two additions to the current cell, two moves, or two prints.
pub open spec fn o1_fusable_pair(a: SpecIr, b: SpecIr) -> bool {
    let add_pair = (a matches SpecIr::Add { x: _, offset: ao } && ao == 0) && (b
        matches SpecIr::Add { x: _, offset: bo } && bo == 0);
    let move_pair = (a matches SpecIr::Move { over: _ }) && (b matches SpecIr::Move {
        over: _,
    });
    let print_pair = (a matches SpecIr::Print { times: _, offset: _ }) && (b
        matches SpecIr::Print { times: _, offset: _ });
    add_pair || move_pair || print_pair
}

/// No two neighbours in the list form a fusable pair.
pub open spec fn no_fusable_pairs(v: Seq<SpecIr>) -> bool {
    forall|k: int| 0 <= k < v.len() - 1 ==> !#[trigger] o1_fusable_pair(v[k], v[k + 1])
}

/// One fusion step keeps the output free of fusable pairs: whatever rule
/// fires, the new last element never merges with its left neighbour.
proof fn lemma_o1_push_no_fusable(acc: Seq<SpecIr>, i: SpecIr)
    requires
        no_fusable_pairs(acc),
    ensures
        no_fusable_pairs(o1_push(acc, i)),
{
    if acc.len() == 0 {
    } else {
        let m = acc.len() - 1;
        let last = acc[m];
        let r = o1_push(acc, i);
        match (last, i) {
            (SpecIr::Add { x: a, offset: ao }, SpecIr::Add { x: b, offset: bo }) => {
                if ao == 0 && bo == 0 {
                    assert forall|k: int| 0 <= k < r.len() - 1 implies !#[trigger] o1_fusable_pair(
                        r[k],
                        r[k + 1],
                    ) by {
                        if k < m - 1 {
                            assert(!o1_fusable_pair(acc[k], acc[k + 1]));
                        } else if k == m - 1 {
                            assert(!o1_fusable_pair(acc[k], acc[k + 1]));
                        }
                    }
                }
            },
            (SpecIr::Move { over: _ }, SpecIr::Move { over: _ }) => {
                assert forall|k: int| 0 <= k < r.len() - 1 implies !#[trigger] o1_fusable_pair(
                    r[k],
                    r[k + 1],
                ) by {
                    if k < m - 1 {
                        assert(!o1_fusable_pair(acc[k], acc[k + 1]));
                    } else if k == m - 1 {
                        assert(!o1_fusable_pair(acc[k], acc[k + 1]));
                    }
                }
            },
            (
                SpecIr::Print { times: _, offset: _ },
                SpecIr::Print { times: _, offset: _ },
            ) => {
                assert forall|k: int| 0 <= k < r.len() - 1 implies !#[trigger] o1_fusable_pair(
                    r[k],
                    r[k + 1],
                ) by {
                    if k < m - 1 {
                        assert(!o1_fusable_pair(acc[k], acc[k + 1]));
                    } else if k == m - 1 {
                        assert(!o1_fusable_pair(acc[k], acc[k + 1]));
                    }
                }
            },
            (_, _) => {
                assert forall|k: int| 0 <= k < r.len() - 1 implies !#[trigger] o1_fusable_pair(
                    r[k],
                    r[k + 1],
                ) by {
                    if 0 <= k < acc.len() - 1 {
                        assert(!o1_fusable_pair(acc[k], acc[k + 1]));
                    }
                }
            },
        }
    }
}

/// The fusion fold keeps the output free of fusable pairs.
proof fn lemma_o1_fold_no_fusable(acc: Seq<SpecIr>, rest: Seq<SpecIr>)
    requires
        no_fusable_pairs(acc),
    ensures
        no_fusable_pairs(o1_fold(acc, rest)),
    decreases rest.len(),
{
    if rest.len() > 0 {
        let sub = rest.subrange(0, rest.len() - 1);
        lemma_o1_fold_no_fusable(acc, sub);
        lemma_o1_push_no_fusable(o1_fold(acc, sub), rest[rest.len() - 1]);
    }
}

/// The heart of the fusion pass's idempotence: its output holds no two
/// neighbouring instructions that its own merge rules would combine.
/// This is the part of "running the fusion a second time changes nothing"
/// that holds of every input; the zero-op filter that runs after the
/// fusion can delete an instruction between two mergeable neighbours and
/// so bring a new fusable pair together, which is why a second run of the
/// whole level is not a fixed point on every program.
pub proof fn lemma_o1_no_fusable_pairs(v: Seq<SpecIr>, program_start: bool)
    ensures
        no_fusable_pairs(o1_list(v, program_start)),
{
    let init: Seq<SpecIr> = if program_start {
        seq![SpecIr::Exact { x: 0, offset: 0 }]
    } else {
        Seq::empty()
    };
    assert(no_fusable_pairs(init));
    lemma_o1_fold_no_fusable(init, v);
    let folded = o1_fold(init, v);
    if program_start && folded.len() > 0 && folded[0] == (SpecIr::Exact { x: 0, offset: 0 }) {
        let stripped = folded.subrange(1, folded.len() as int);
        assert forall|k: int| 0 <= k < stripped.len() - 1 implies !#[trigger] o1_fusable_pair(
            stripped[k],
            stripped[k + 1],
        ) by {
            let j = k + 1;
            assert(!o1_fusable_pair(folded[j], folded[j + 1]));
            assert(stripped[k] == folded[j] && stripped[k + 1] == folded[j + 1]);
        }
    }
}

/// Unfolding of `lower_body` over an appended element.
pub broadcast proof fn lemma_lower_body_push(v: Seq<SpecIr>, x: SpecIr, over: int)
    ensures
        #![trigger lower_body(v.push(x), over)]
        lower_body(v.push(x), over) == (match x {
            SpecIr::Add { x: a, offset } => {
                if a == -1 && offset == 0 {
                    lower_body(v, over)
                } else {
                    lower_body(v, over).push(SpecIr::Mul { x: offset, y: a, offset: over })
                }
            },
            _ => lower_body(v, over).push(x),
        }),
{
    let w = v.push(x);
    assert(w.subrange(0, w.len() - 1) =~= v);
}

/// Does this loop body qualify for multiply-loop lowering?
fn is_multiply_body(body: &Vec<IR>) -> (r: bool)
    ensures
        r == is_multiply_loop(view_irs(body@)),
{
    let ghost bv = view_irs(body@);
    let mut has_dec = false;
    let n = body.len();
    for j in 0..n
        invariant
            n == body@.len(),
            bv == view_irs(body@),
            bv.len() == n,
            forall|l: int|
                0 <= l < j ==> #[trigger] bv[l] matches SpecIr::Add { x: _, offset: _ },
            has_dec == (exists|l: int|
                0 <= l < j && #[trigger] bv[l] == (SpecIr::Add { x: -1, offset: 0 })),
    {
        proof {
            lemma_view_irs_index(body@, j as int);
        }
        match &body[j] {
            IR::Add { x, offset } => {
                if *x == -1 && *offset == 0 {
                    has_dec = true;
                }
            },
            _ => {
                return false;
            },
        }
    }
    has_dec
}

/// Appends the multiply pass's result for one instruction.
fn o3_push_one(result: &mut Vec<IR>, i: &IR)
    ensures
        view_irs(final(result)@) == view_irs(old(result)@) + o3_one(view_ir(*i)),
    decreases size_of_ir(view_ir(*i)), 0int,
{
    let ghost r0 = view_irs(result@);
    match i {
        IR::Loop { over, instructions } => {
            proof {
                lemma_view_ir_loop(*over, *instructions);
            }
            if is_multiply_body(instructions) {
                let ghost bv = view_irs(instructions@);
                proof {
                    assert(r0 + lower_body(bv.subrange(0, 0), *over as int) =~= r0);
                    assert(bv.subrange(0, 0) =~= Seq::<SpecIr>::empty());
                }
                let n = instructions.len();
                for j in 0..n
                    invariant
                        n == instructions@.len(),
                        bv == view_irs(instructions@),
                        bv.len() == n,
                        r0 == view_irs(old(result)@),
                        view_irs(result@) == r0 + lower_body(
                            bv.subrange(0, j as int),
                            *over as int,
                        ),
                {
                    proof {
                        lemma_view_irs_index(instructions@, j as int);
                        lemma_lower_body_push(
                            bv.subrange(0, j as int),
                            bv[j as int],
                            *over as int,
                        );
                        assert(bv.subrange(0, j + 1) =~= bv.subrange(0, j as int).push(
                            bv[j as int],
                        ));
                    }
                    match &instructions[j] {
                        IR::Add { x, offset } => {
                            if !(*x == -1 && *offset == 0) {
                                result.push(IR::Mul { x: *offset, y: *x, offset: *over });
                            }
                        },
                        _ => {
                            let c = copy_ir(&instructions[j]);
                            result.push(c);
                        },
                    }
                }
                proof {
                    assert(bv.subrange(0, n as int) =~= bv);
                }
                result.push(IR::Exact { x: 0, offset: *over });
                result.push(IR::Move { over: *over });
                proof {
                    assert(view_irs(result@) =~= r0 + o3_one(view_ir(*i)));
                }
            } else {
                proof {
                    lemma_size_of_ir_pos(view_ir(*i));
                }
                let nb = o3_optimize_vec(instructions);
                result.push(IR::Loop { over: *over, instructions: nb });
                proof {
                    lemma_view_ir_loop(*over, nb);
                    assert(view_irs(result@) =~= r0 + o3_one(view_ir(*i)));
                }
            }
        },
        _ => {
            let c = copy_ir(i);
            result.push(c);
            proof {
                assert(view_irs(result@) =~= r0 + o3_one(view_ir(*i)));
            }
        },
    }
}

/// Runs the multiply pass over one scope of instructions.
fn o3_optimize_vec(v: &Vec<IR>) -> (r: Vec<IR>)
    ensures
        view_irs(r@) == o3_list(view_irs(v@)),
    decreases size_of_irs(view_irs(v@)), 1int,
{
    let mut result: Vec<IR> = Vec::new();
    proof {
        assert(v@.subrange(0, 0) =~= Seq::<IR>::empty());
        assert(view_irs(v@.subrange(0, 0)) =~= Seq::<SpecIr>::empty());
        assert(view_irs(result@) =~= o3_list(view_irs(v@.subrange(0, 0))));
    }
    let n = v.len();
    for idx in 0..n
        invariant
            n == v@.len(),
            view_irs(result@) == o3_list(view_irs(v@.subrange(0, idx as int))),
    {
        proof {
            lemma_view_irs_len(v@);
            lemma_view_irs_index(v@, idx as int);
            lemma_size_of_irs_elem(view_irs(v@), idx as int);
            lemma_view_irs_push(v@.subrange(0, idx as int), v@[idx as int]);
            assert(v@.subrange(0, idx + 1) =~= v@.subrange(0, idx as int).push(
                v@[idx as int],
            ));
            lemma_o3_list_push(view_irs(v@.subrange(0, idx as int)), view_ir(v@[idx as int]));
        }
        o3_push_one(&mut result, &v[idx]);
    }
    proof {
        assert(v@.subrange(0, n as int) =~= v@);
    }
    result
}

/// Folds every pending move into the offsets of the instructions that
/// follow it, leaving at most one trailing move per scope.
pub fn merge_moves_into_offset(v: &Vec<IR>) -> (r: Vec<IR>)
    ensures
        view_irs(r@) == mm_list(view_irs(v@)),
    decreases size_of_irs(view_irs(v@)), 2int,
{
    let mut result: Vec<IR> = Vec::new();
    let mut running: i32 = 0;
    proof {
        assert(v@.subrange(0, 0) =~= Seq::<IR>::empty());
        assert(view_irs(v@.subrange(0, 0)) =~= Seq::<SpecIr>::empty());
        assert(view_irs(result@) =~= Seq::<SpecIr>::empty());
    }
    let n = v.len();
    for idx in 0..n
        invariant
            n == v@.len(),
            view_irs(result@) == mm_fold(
                Seq::empty(),
                0,
                view_irs(v@.subrange(0, idx as int)),
            ).0,
            running as int == mm_fold(Seq::empty(), 0, view_irs(v@.subrange(0, idx as int))).1,
    {
        proof {
            lemma_view_irs_len(v@);
            lemma_view_irs_index(v@, idx as int);
            lemma_size_of_irs_elem(view_irs(v@), idx as int);
            lemma_view_irs_push(v@.subrange(0, idx as int), v@[idx as int]);
            assert(v@.subrange(0, idx + 1) =~= v@.subrange(0, idx as int).push(
                v@[idx as int],
            ));
            lemma_mm_fold_push(
                Seq::empty(),
                0,
                view_irs(v@.subrange(0, idx as int)),
                view_ir(v@[idx as int]),
            );
        }
        let cur = &v[idx];
        match cur {
            IR::Move { over } => {
                running = running.wrapping_add(*over);
            },
            IR::Add { x, offset } => {
                result.push(IR::Add { x: *x, offset: offset.wrapping_add(running) });
            },
            IR::Print { times, offset } => {
                result.push(IR::Print { times: *times, offset: offset.wrapping_add(running) });
            },
            IR::Read { offset } => {
                result.push(IR::Read { offset: offset.wrapping_add(running) });
            },
            IR::Exact { x, offset } => {
                result.push(IR::Exact { x: *x, offset: offset.wrapping_add(running) });
            },
            IR::Mul { x, y, offset } => {
                result.push(IR::Mul { x: *x, y: *y, offset: offset.wrapping_add(running) });
            },
            IR::Loop { over, instructions } => {
                proof {
                    lemma_view_ir_loop(*over, *instructions);
                }
                let nb = merge_moves_into_offset(instructions);
                result.push(IR::Loop { over: over.wrapping_add(running), instructions: nb });
                proof {
                    lemma_view_ir_loop(over.wrapping_add(running), nb);
                }
                running = 0;
            },
        }
    }
    proof {
        assert(v@.subrange(0, n as int) =~= v@);
    }
    if running != 0 {
        result.push(IR::Move { over: running });
    }
    result
}

/// Parses and optimizes source text through every level: fusion, offset
/// hoisting, multiply-loop lowering and final move folding.
pub fn optimize_o3(bf: &str) -> (r: Result<Vec<IR>, OptimizerError>)
    ensures
        (match spec_o3(bf@) {
            Result::Ok(p) => r matches Ok(out) && view_irs(out@) == p,
            Result::Err(e) => r matches Err(e2) && e2 == e,
        }),
{
    let hoisted = match optimize_o2(bf) {
        Result::Ok(p) => p,
        Result::Err(e) => {
            return Result::Err(e);
        },
    };
    let lowered = o3_optimize_vec(&hoisted);
    let merged = merge_moves_into_offset(&lowered);
    Result::Ok(remove_zero_moves_and_adds(&merged))
}

} // verus!

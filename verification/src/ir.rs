use vstd::prelude::*;

verus! {

/// One instruction of the intermediate representation.
///
/// All offsets are relative to the data pointer at the moment the
/// instruction executes.  `Loop` first moves the pointer by `over` and then
/// repeats its body while the cell under the pointer is nonzero.  `Mul`
/// means `cell[p + offset + x] += cell[p + offset] * y` in wrapping byte
/// arithmetic.
#[derive(Debug, PartialEq)]
pub enum IR {
    Add { x: i32, offset: i32 },
    Move { over: i32 },
    Print { times: usize, offset: i32 },
    Read { offset: i32 },
    Exact { x: i32, offset: i32 },
    Loop { over: i32, instructions: Vec<IR> },
    Mul { x: i32, y: i32, offset: i32 },
}

/// The mathematical shape of one instruction: the same tree as `IR`, over
/// unbounded integers and sequences.  Contracts speak of this type.
#[verifier::ext_equal]
pub enum SpecIr {
    Add { x: int, offset: int },
    Move { over: int },
    Print { times: nat, offset: int },
    Read { offset: int },
    Exact { x: int, offset: int },
    Loop { over: int, body: Seq<SpecIr> },
    Mul { x: int, y: int, offset: int },
}

/// The abstraction of one executable instruction.
pub open spec fn view_ir(i: IR) -> SpecIr
    decreases i,
{
    match i {
        IR::Add { x, offset } => SpecIr::Add { x: x as int, offset: offset as int },
        IR::Move { over } => SpecIr::Move { over: over as int },
        IR::Print { times, offset } => SpecIr::Print {
            times: times as nat,
            offset: offset as int,
        },
        IR::Read { offset } => SpecIr::Read { offset: offset as int },
        IR::Exact { x, offset } => SpecIr::Exact { x: x as int, offset: offset as int },
        IR::Loop { over, instructions: _ } => {
            proof {
                assert(decreases_to!(i => i->instructions));
                assert(decreases_to!(i->instructions => i->instructions@));
            }
            SpecIr::Loop { over: over as int, body: view_irs(i->instructions@) }
        },
        IR::Mul { x, y, offset } => SpecIr::Mul {
            x: x as int,
            y: y as int,
            offset: offset as int,
        },
    }
}

/// The abstraction of a list of executable instructions.
pub open spec fn view_irs(v: Seq<IR>) -> Seq<SpecIr>
    decreases v,
{
    if v.len() == 0 {
        Seq::empty()
    } else {
        proof {
            assert(decreases_to!(v => v.subrange(0, v.len() - 1)));
            assert(decreases_to!(v => v[v.len() - 1]));
        }
        view_irs(v.subrange(0, v.len() - 1)).push(view_ir(v[v.len() - 1]))
    }
}

/// A list and its view have the same length.
pub broadcast proof fn lemma_view_irs_len(v: Seq<IR>)
    ensures
        #![trigger view_irs(v)]
        view_irs(v).len() == v.len(),
    decreases v.len(),
{
    if v.len() > 0 {
        lemma_view_irs_len(v.subrange(0, v.len() - 1));
    }
}

/// The view of a list indexes pointwise into the views of its elements.
pub broadcast proof fn lemma_view_irs_index(v: Seq<IR>, j: int)
    requires
        0 <= j < v.len(),
    ensures
        #![trigger view_irs(v)[j]]
        view_irs(v)[j] == view_ir(v[j]),
    decreases v.len(),
{
    lemma_view_irs_len(v);
    let sub = v.subrange(0, v.len() - 1);
    lemma_view_irs_len(sub);
    if j < v.len() - 1 {
        lemma_view_irs_index(sub, j);
    }
}

/// Viewing commutes with appending one instruction.
pub broadcast proof fn lemma_view_irs_push(v: Seq<IR>, x: IR)
    ensures
        #![trigger view_irs(v.push(x))]
        view_irs(v.push(x)) == view_irs(v).push(view_ir(x)),
{
    let w = v.push(x);
    assert(w.subrange(0, w.len() - 1) =~= v);
}

/// Unfolding `view_ir` on a `Loop` gives the view of its body.
pub proof fn lemma_view_ir_loop(over: i32, instructions: Vec<IR>)
    ensures
        view_ir(IR::Loop { over, instructions }) == (SpecIr::Loop {
            over: over as int,
            body: view_irs(instructions@),
        }),
{
    assert(view_ir(IR::Loop { over, instructions }) =~= (SpecIr::Loop {
        over: over as int,
        body: view_irs(instructions@),
    }));
}

/// The size of an instruction tree: one per node.  Termination measure for
/// the optimizer passes.
pub open spec fn size_of_ir(i: SpecIr) -> nat
    decreases i,
{
    match i {
        SpecIr::Loop { over: _, body: _ } => {
            proof {
                assert(decreases_to!(i => i->body));
            }
            1 + size_of_irs(i->body)
        },
        _ => 1,
    }
}

/// The total size of a list of instruction trees.
pub open spec fn size_of_irs(v: Seq<SpecIr>) -> nat
    decreases v,
{
    if v.len() == 0 {
        0
    } else {
        proof {
            assert(decreases_to!(v => v.subrange(0, v.len() - 1)));
            assert(decreases_to!(v => v[v.len() - 1]));
        }
        size_of_irs(v.subrange(0, v.len() - 1)) + size_of_ir(v[v.len() - 1])
    }
}

/// Every instruction tree has size at least one.
pub broadcast proof fn lemma_size_of_ir_pos(i: SpecIr)
    ensures
        #![trigger size_of_ir(i)]
        size_of_ir(i) >= 1,
{
}

/// An element weighs no more than its whole list.
pub proof fn lemma_size_of_irs_elem(v: Seq<SpecIr>, j: int)
    requires
        0 <= j < v.len(),
    ensures
        size_of_ir(v[j]) <= size_of_irs(v),
    decreases v.len(),
{
    let sub = v.subrange(0, v.len() - 1);
    if j < v.len() - 1 {
        lemma_size_of_irs_elem(sub, j);
    }
}

/// Signed 32-bit wrapping addition, for operand fusion and pointer moves.
pub open spec fn wrap_add_i32(a: int, b: int) -> int {
    if a + b > i32::MAX {
        a + b - 0x1_0000_0000
    } else if a + b < i32::MIN {
        a + b + 0x1_0000_0000
    } else {
        a + b
    }
}

/// Unsigned word-size wrapping addition, for fusing print repetitions.
pub open spec fn wrap_add_usize(a: nat, b: nat) -> nat {
    if a + b > usize::MAX {
        (a + b - usize::MAX - 1) as nat
    } else {
        a + b
    }
}

/// A verified deep copy of one instruction tree.
pub fn copy_ir(i: &IR) -> (r: IR)
    ensures
        view_ir(r) == view_ir(*i),
    decreases size_of_ir(view_ir(*i)),
{
    broadcast use lemma_view_irs_len, lemma_view_irs_index, lemma_view_irs_push;

    match i {
        IR::Add { x, offset } => IR::Add { x: *x, offset: *offset },
        IR::Move { over } => IR::Move { over: *over },
        IR::Print { times, offset } => IR::Print { times: *times, offset: *offset },
        IR::Read { offset } => IR::Read { offset: *offset },
        IR::Exact { x, offset } => IR::Exact { x: *x, offset: *offset },
        IR::Loop { over, instructions } => {
            let mut body: Vec<IR> = Vec::new();
            let n = instructions.len();
            for j in 0..n
                invariant
                    n == instructions.len(),
                    view_irs(body@) == view_irs(instructions@.subrange(0, j as int)),
                    view_ir(*i) == (SpecIr::Loop {
                        over: *over as int,
                        body: view_irs(instructions@),
                    }),
            {
                proof {
                    lemma_view_irs_len(instructions@);
                    lemma_view_irs_index(instructions@, j as int);
                    lemma_size_of_irs_elem(view_irs(instructions@), j as int);
                }
                let ghost b0 = body@;
                let c = copy_ir(&instructions[j]);
                body.push(c);
                proof {
                    lemma_view_irs_push(b0, c);
                    lemma_view_irs_push(instructions@.subrange(0, j as int), instructions[j as int]);
                    assert(instructions@.subrange(0, j + 1) =~= instructions@.subrange(
                        0,
                        j as int,
                    ).push(instructions@[j as int]));
                }
            }
            proof {
                assert(instructions@.subrange(0, n as int) =~= instructions@);
            }
            IR::Loop { over: *over, instructions: body }
        },
        IR::Mul { x, y, offset } => IR::Mul { x: *x, y: *y, offset: *offset },
    }
}

} // verus!

//! The counting loop: registers start at `r0 = 0, r1 = 1, r2 = n`, the body
//! adds `r1` to `r0` and branches back while `r0 != r2`, then `r0` is printed.
use vstd::prelude::*;
use crate::bytecode::Bytecode;
use crate::convert::{convert_spec, lower, ConvertError};
use crate::internal_instruction::{
    encode_seq, jump_target, lemma_decode_at, lemma_encode_push, offset, Instr,
};
use crate::semantics::{
    halted, halts_with, init_state, lemma_resume_step, lemma_reuse_same_result, run, step, MState,
};

verus! {

/// The source of the counting loop up to `n`.
pub open spec fn counting_source(n: u32) -> Seq<Bytecode> {
    seq![
        Bytecode::Load { dst: 0, imm: 0 },
        Bytecode::Load { dst: 1, imm: 1 },
        Bytecode::Load { dst: 2, imm: n },
        Bytecode::Add { dst: 0, lhs: 0, rhs: 1 },
        Bytecode::JmpNe { lhs: 0, rhs: 2, target: 3 },
        Bytecode::Print { src: 0 },
        Bytecode::Ret,
    ]
}

/// The internal program of the counting loop up to `n`.
pub open spec fn counting_instrs(n: u32) -> Seq<Instr> {
    seq![
        Instr::Load { result: 0, imm: 0 },
        Instr::Load { result: 1, imm: 1 },
        Instr::Load { result: 2, imm: n },
        Instr::Add { result: 0, lhs: 0, rhs: 1 },
        Instr::UnwindIfNeeded { depth: 5 },
        Instr::JmpNe { lhs: 0, rhs: 2, target: -12i16 },
        Instr::Print { input: 0 },
        Instr::Ret,
    ]
}

/// How many times the loop body runs: `n`, or a full wrap of the counter for 0.
pub open spec fn passes(n: u32) -> nat {
    if n == 0 {
        0x1_0000_0000
    } else {
        n as nat
    }
}

/// The run sits at the top of the body after `t` passes.
spec fn at_pass(n: u32, m: MState, t: nat) -> bool {
    &&& m.pc == 3
    &&& !m.unwinding
    &&& m.depth == 5 * (t % 101)
    &&& m.resumes == t / 101
    &&& m.regs.len() == 256
    &&& m.regs[0] == (t % 0x1_0000_0000) as u32
    &&& m.regs[1] == 1
    &&& m.regs[2] == n
    &&& m.out == Seq::<u32>::empty()
}

proof fn lemma_branch_goes_to_body(n: u32)
    ensures
        jump_target(counting_instrs(n), 5) == 3,
{
    let s = counting_instrs(n);
    assert(s.take(0) =~= Seq::<Instr>::empty());
    lemma_decode_at(s, 0);
    lemma_decode_at(s, 1);
    lemma_decode_at(s, 2);
    lemma_decode_at(s, 3);
    lemma_decode_at(s, 4);
    lemma_decode_at(s, 5);
    assert(offset(s, 3) == 18);
    assert(offset(s, 6) == 30);
    assert(0 <= 3 < 5 && !(s[3] is JmpNe) && offset(s, 3) == offset(s, 6) + s[5]->JmpNe_target);
}

proof fn lemma_unfold3(s: Seq<Instr>, k: nat)
    ensures
        run(s, init_state(), k + 3) == step(s, step(s, step(s, run(s, init_state(), k)))),
{
    assert(run(s, init_state(), k + 1) == step(s, run(s, init_state(), k)));
    assert(run(s, init_state(), k + 2) == step(s, run(s, init_state(), k + 1)));
    assert(run(s, init_state(), k + 3) == step(s, run(s, init_state(), k + 2)));
}

/// The registers and output a step keeps, and where it goes.
spec fn moves(m: MState, m2: MState, pc: int) -> bool {
    &&& m2.pc == pc
    &&& m2.regs == m.regs
    &&& m2.out == m.out
}

proof fn lemma_step_loads(n: u32)
    ensures
        ({
            let m = run(counting_instrs(n), init_state(), 3);
            &&& m.pc == 3
            &&& !m.unwinding
            &&& m.depth == 0
            &&& m.resumes == 0
            &&& m.regs == Seq::new(256, |_i: int| 0u32).update(0, 0u32).update(1, 1u32).update(2, n)
            &&& m.out == Seq::<u32>::empty()
        }),
{
    let s = counting_instrs(n);
    lemma_unfold3(s, 0);
    reveal(step);
}

proof fn lemma_step_add(n: u32, m: MState)
    requires
        m.pc == 3,
        !m.unwinding,
        m.regs.len() == 256,
    ensures
        step(counting_instrs(n), m).pc == 4,
        !step(counting_instrs(n), m).unwinding,
        step(counting_instrs(n), m).regs == m.regs.update(0, m.regs[0].wrapping_add(m.regs[1])),
        step(counting_instrs(n), m).out == m.out,
        step(counting_instrs(n), m).depth == m.depth,
        step(counting_instrs(n), m).resumes == m.resumes,
{
    reveal(step);
}

proof fn lemma_step_unwind(n: u32, m: MState)
    requires
        m.pc == 4,
        !m.unwinding,
    ensures
        moves(m, step(counting_instrs(n), m), 5),
        step(counting_instrs(n), m).resumes == m.resumes,
        step(counting_instrs(n), m).unwinding <==> m.depth + 5 > 500,
        step(counting_instrs(n), m).depth == m.depth + 5,
{
    reveal(step);
}

proof fn lemma_step_branch(n: u32, m: MState)
    requires
        m.pc == 5,
        !m.unwinding,
    ensures
        moves(m, step(counting_instrs(n), m), if m.regs[0] != m.regs[2] { 3 } else { 6 }),
        !step(counting_instrs(n), m).unwinding,
        step(counting_instrs(n), m).depth == m.depth,
        step(counting_instrs(n), m).resumes == m.resumes,
{
    lemma_branch_goes_to_body(n);
    reveal(step);
}

proof fn lemma_step_print(n: u32, m: MState)
    requires
        m.pc == 6,
        !m.unwinding,
    ensures
        step(counting_instrs(n), m).pc == 7,
        !step(counting_instrs(n), m).unwinding,
        step(counting_instrs(n), m).out == m.out.push(m.regs[0]),
        step(counting_instrs(n), m).resumes == m.resumes,
{
    reveal(step);
}

proof fn lemma_unfold1(s: Seq<Instr>, k: nat)
    ensures
        run(s, init_state(), k + 1) == step(s, run(s, init_state(), k)),
{
}

/// One pass of the body from the top, up to the branch's decision; a resume
/// of the trampoline may fall between the depth charge and the branch.
#[verifier::rlimit(40)]
proof fn lemma_one_pass(n: u32, k: nat, t: nat) -> (k2: nat)
    requires
        at_pass(n, run(counting_instrs(n), init_state(), k), t),
    ensures
        ({
            let m3 = run(counting_instrs(n), init_state(), k2);
            &&& !m3.unwinding
            &&& m3.depth == 5 * ((t + 1) % 101)
            &&& m3.resumes == (t + 1) / 101
            &&& m3.regs.len() == 256
            &&& m3.regs[0] == ((t + 1) % 0x1_0000_0000) as u32
            &&& m3.regs[1] == 1
            &&& m3.regs[2] == n
            &&& m3.out == Seq::<u32>::empty()
            &&& m3.pc == if m3.regs[0] != n { 3int } else { 6int }
        }),
{
    let s = counting_instrs(n);
    let m = run(s, init_state(), k);
    lemma_step_add(n, m);
    lemma_unfold1(s, k);
    let m1 = run(s, init_state(), k + 1);
    assert(m1.regs[0] == ((t + 1) % 0x1_0000_0000) as u32);
    lemma_step_unwind(n, m1);
    lemma_unfold1(s, k + 1);
    let m2 = run(s, init_state(), k + 2);
    assert(t % 101 == 100 ==> (t + 1) % 101 == 0 && (t + 1) / 101 == t / 101 + 1);
    assert(t % 101 < 100 ==> (t + 1) % 101 == t % 101 + 1 && (t + 1) / 101 == t / 101);
    if m2.unwinding {
        lemma_resume_step(s, m2);
        lemma_unfold1(s, k + 2);
        let m2b = run(s, init_state(), k + 3);
        lemma_step_branch(n, m2b);
        lemma_unfold1(s, k + 3);
        k + 4
    } else {
        lemma_step_branch(n, m2);
        lemma_unfold1(s, k + 2);
        k + 3
    }
}

proof fn lemma_reach_pass(n: u32, t: nat) -> (k: nat)
    requires
        t < passes(n),
    ensures
        at_pass(n, run(counting_instrs(n), init_state(), k), t),
    decreases t,
{
    if t == 0 {
        lemma_step_loads(n);
        3
    } else {
        let k0 = lemma_reach_pass(n, (t - 1) as nat);
        lemma_one_pass(n, k0, (t - 1) as nat)
    }
}

/// The counting loop up to any `n` stops having printed exactly `n`; for
/// `n == 0` the counter wraps all the way round first.
pub proof fn lemma_counting_prints_bound(n: u32) -> (k: nat)
    ensures
        halted(counting_instrs(n), run(counting_instrs(n), init_state(), k)),
        run(counting_instrs(n), init_state(), k).out == seq![n],
        run(counting_instrs(n), init_state(), k).resumes == passes(n) / 101,
{
    let s = counting_instrs(n);
    let t = (passes(n) - 1) as nat;
    let k0 = lemma_reach_pass(n, t);
    let k3 = lemma_one_pass(n, k0, t);
    let m3 = run(s, init_state(), k3);
    lemma_step_print(n, m3);
    lemma_unfold1(s, k3);
    assert(run(s, init_state(), k3 + 1).out =~= seq![n]);
    k3 + 1
}

/// The counting loop's source converts to `counting_instrs`.
pub proof fn lemma_counting_converts(n: u32)
    ensures
        convert_spec(counting_source(n)) == Ok::<Seq<Instr>, ConvertError>(counting_instrs(n)),
{
    let src = counting_source(n);
    let c = counting_instrs(n);
    let l0 = Seq::<Instr>::empty();
    let l1 = l0.push(c[0]);
    let l2 = l1.push(c[1]);
    let l3 = l2.push(c[2]);
    let l4 = l3.push(c[3]);
    assert(lower(src, 0) == Ok::<Seq<Instr>, ConvertError>(l0));
    assert(lower(src, 1) == Ok::<Seq<Instr>, ConvertError>(l1));
    assert(lower(src, 2) == Ok::<Seq<Instr>, ConvertError>(l2));
    assert(lower(src, 3) == Ok::<Seq<Instr>, ConvertError>(l3));
    assert(lower(src, 4) == Ok::<Seq<Instr>, ConvertError>(l4));
    lemma_encode_push(l0, c[0]);
    lemma_encode_push(l1, c[1]);
    lemma_encode_push(l2, c[2]);
    lemma_encode_push(l3, c[3]);
    assert(encode_seq(l0).len() == 0);
    assert(encode_seq(l3).len() == 18);
    assert(encode_seq(l4).len() == 22);
    let l6 = l4.push(c[4]).push(c[5]);
    assert(lower(src, 5) == Ok::<Seq<Instr>, ConvertError>(l6));
    assert(lower(src, 6) == Ok::<Seq<Instr>, ConvertError>(l6.push(c[6])));
    assert(lower(src, 7) == Ok::<Seq<Instr>, ConvertError>(l6.push(c[6]).push(c[7])));
    assert(l6.push(c[6]).push(c[7]) =~= c);
}

/// Converting the counting loop up to `n` and running it from fresh
/// registers stops, and wherever it stops it has printed exactly `n`, having
/// resumed once per 101 passes: far fewer than `usize::MAX` times, so
/// `vm_loop` returns `Some` on it.
pub proof fn lemma_counting_loop_prints_n(n: u32, m: MState)
    ensures
        convert_spec(counting_source(n)) == Ok::<Seq<Instr>, ConvertError>(counting_instrs(n)),
        exists|k: nat| halts_with(counting_instrs(n), #[trigger] run(counting_instrs(n), init_state(), k)),
        halts_with(counting_instrs(n), m) ==> m.out == seq![n] && m.resumes < usize::MAX,
{
    lemma_counting_converts(n);
    let k = lemma_counting_prints_bound(n);
    let mk = run(counting_instrs(n), init_state(), k);
    assert(halts_with(counting_instrs(n), mk));
    assert(mk.resumes < usize::MAX);
    if halts_with(counting_instrs(n), m) {
        lemma_reuse_same_result(counting_instrs(n), m, mk);
    }
}

} // verus!

//! What running an internal program means, one instruction at a time.
use vstd::prelude::*;
use crate::internal_instruction::{instr_ok, jump_target, wf_instrs, Instr};

verus! {

/// The stack-depth estimate past which the engine unwinds to its trampoline.
pub const STACK_DEPTH_LIMIT: usize = 500;

/// The state of a run: registers, the index of the next instruction, what has
/// been printed, the depth estimate, whether the run is unwinding to its
/// trampoline, and counts of resumes and taken branches.
pub struct MState {
    pub regs: Seq<u32>,
    pub pc: int,
    pub out: Seq<u32>,
    pub depth: nat,
    pub unwinding: bool,
    pub resumes: nat,
    pub taken: nat,
}

/// All 256 registers zeroed, at the first instruction.
pub open spec fn init_state() -> MState {
    MState {
        regs: Seq::new(256, |_i: int| 0u32),
        pc: 0,
        out: Seq::empty(),
        depth: 0,
        unwinding: false,
        resumes: 0,
        taken: 0,
    }
}

/// The run has stopped at `Ret`.
pub open spec fn halted(s: Seq<Instr>, m: MState) -> bool {
    !m.unwinding && 0 <= m.pc < s.len() && s[m.pc] is Ret
}

/// One transition: the trampoline's resume when unwinding, which resets the
/// depth estimate, else one instruction's effect.
#[verifier::opaque]
pub open spec fn step(s: Seq<Instr>, m: MState) -> MState {
    if m.unwinding {
        MState { depth: 0, unwinding: false, resumes: m.resumes + 1, ..m }
    } else if !(0 <= m.pc < s.len()) {
        m
    } else {
        match s[m.pc] {
            Instr::Load { result, imm } => MState {
                regs: m.regs.update(result as int, imm),
                pc: m.pc + 1,
                ..m
            },
            Instr::Add { result, lhs, rhs } => MState {
                regs: m.regs.update(result as int, m.regs[lhs as int].wrapping_add(m.regs[rhs as int])),
                pc: m.pc + 1,
                ..m
            },
            Instr::JmpNe { lhs, rhs, .. } => if m.regs[lhs as int] != m.regs[rhs as int] {
                MState { pc: jump_target(s, m.pc), taken: m.taken + 1, ..m }
            } else {
                MState { pc: m.pc + 1, ..m }
            },
            Instr::Print { input } => MState {
                out: m.out.push(m.regs[input as int]),
                pc: m.pc + 1,
                ..m
            },
            Instr::Ret => m,
            Instr::UnwindIfNeeded { depth } => if m.depth + depth > STACK_DEPTH_LIMIT {
                MState { depth: (m.depth + depth) as nat, unwinding: true, pc: m.pc + 1, ..m }
            } else {
                MState { depth: (m.depth + depth) as nat, pc: m.pc + 1, ..m }
            },
        }
    }
}

/// The state after `n` instructions.
pub open spec fn run(s: Seq<Instr>, m: MState, n: nat) -> MState
    decreases n,
{
    if n == 0 {
        m
    } else {
        step(s, run(s, m, (n - 1) as nat))
    }
}

/// `m` is the state in which the program stops, from fresh registers.
pub open spec fn halts_with(s: Seq<Instr>, m: MState) -> bool {
    exists|k: nat| run(s, init_state(), k) == m && halted(s, m)
}

proof fn lemma_halted_stays(s: Seq<Instr>, m: MState, a: nat, b: nat)
    requires
        a <= b,
        halted(s, run(s, m, a)),
    ensures
        run(s, m, b) == run(s, m, a),
    decreases b - a,
{
    if a < b {
        lemma_halted_stays(s, m, a, (b - 1) as nat);
        reveal(step);
    }
}

/// Runs are deterministic: two runs of one program from fresh registers stop
/// in the same state, so they print the same values and resume as often.
pub proof fn lemma_reuse_same_result(s: Seq<Instr>, m1: MState, m2: MState)
    requires
        halts_with(s, m1),
        halts_with(s, m2),
    ensures
        m1 == m2,
        m1.out == m2.out,
{
    let k1 = choose|k: nat| run(s, init_state(), k) == m1 && halted(s, m1);
    let k2 = choose|k: nat| run(s, init_state(), k) == m2 && halted(s, m2);
    if k1 <= k2 {
        lemma_halted_stays(s, init_state(), k1, k2);
    } else {
        lemma_halted_stays(s, init_state(), k2, k1);
    }
}

/// A program with no `Print` never prints anything, however long it runs.
pub proof fn lemma_no_print_no_output(s: Seq<Instr>, n: nat)
    requires
        forall|i: int| 0 <= i < s.len() ==> !(#[trigger] s[i] is Print),
    ensures
        run(s, init_state(), n).out.len() == 0,
    decreases n,
{
    if n > 0 {
        lemma_no_print_no_output(s, (n - 1) as nat);
        reveal(step);
    }
}

spec fn resumes_inv(s: Seq<Instr>, b: int, m: MState) -> bool {
    &&& 0 <= m.pc < s.len()
    &&& m.pc < b ==> m.resumes <= m.taken
    &&& m.resumes <= m.taken + 1
    &&& m.unwinding ==> m.pc == b && m.resumes <= m.taken
}

proof fn lemma_resumes_step(s: Seq<Instr>, b: int, m: MState)
    requires
        wf_instrs(s),
        0 <= b < s.len(),
        s[b] is JmpNe,
        forall|i: int| 0 <= i < s.len() && #[trigger] s[i] is JmpNe ==> i == b,
        resumes_inv(s, b, m),
    ensures
        resumes_inv(s, b, step(s, m)),
{
    assert(instr_ok(s, m.pc));
    assert(instr_ok(s, s.len() - 1));
    reveal(step);
    if m.unwinding {
    } else {
    match s[m.pc] {
        Instr::JmpNe { lhs, rhs, .. } => {
            assert(m.pc == b);
            if m.regs[lhs as int] != m.regs[rhs as int] {
                let j = jump_target(s, m.pc);
                assert(instr_ok(s, b));
                assert(0 <= j < m.pc);
            }
        },
        Instr::UnwindIfNeeded { .. } => {
            assert(s[m.pc + 1] is JmpNe);
            assert(m.pc + 1 == b);
        },
        _ => {},
    }
    }
}

/// Resumes are never taken back.
pub proof fn lemma_resumes_grow(s: Seq<Instr>, a: nat, b: nat)
    requires
        a <= b,
    ensures
        run(s, init_state(), a).resumes <= run(s, init_state(), b).resumes,
    decreases b - a,
{
    if a < b {
        lemma_resumes_grow(s, a, (b - 1) as nat);
        reveal(step);
    }
}

/// With one branch at `b`, resumes never outrun the branches taken: before
/// the branch's depth charge they are at most the branches taken, after it at
/// most one more.
proof fn lemma_resumes_inv(s: Seq<Instr>, b: int, n: nat)
    requires
        wf_instrs(s),
        0 <= b < s.len(),
        s[b] is JmpNe,
        forall|i: int| 0 <= i < s.len() && #[trigger] s[i] is JmpNe ==> i == b,
    ensures
        resumes_inv(s, b, run(s, init_state(), n)),
    decreases n,
{
    if n > 0 {
        lemma_resumes_inv(s, b, (n - 1) as nat);
        lemma_resumes_step(s, b, run(s, init_state(), (n - 1) as nat));
    }
}

/// Trampoline bound: in a program whose only branch is the one at `b`, the
/// engine has resumed at most once more than that branch has been taken, at
/// every point of the run. So a branch taken at most `k` times costs at most
/// `k + 1` resumes.
pub proof fn lemma_resumes_bounded_by_branches(s: Seq<Instr>, b: int, n: nat)
    requires
        wf_instrs(s),
        0 <= b < s.len(),
        s[b] is JmpNe,
        forall|i: int| 0 <= i < s.len() && #[trigger] s[i] is JmpNe ==> i == b,
    ensures
        run(s, init_state(), n).resumes <= run(s, init_state(), n).taken + 1,
{
    lemma_resumes_inv(s, b, n);
}

/// The trampoline's transition: the depth estimate is reset and the run
/// resumes where it unwound.
pub proof fn lemma_resume_step(s: Seq<Instr>, m: MState)
    requires
        m.unwinding,
    ensures
        step(s, m) == (MState { depth: 0, unwinding: false, resumes: m.resumes + 1, ..m }),
{
    reveal(step);
}

/// No point of a run that stops has resumed more often than its final state.
pub proof fn lemma_halting_bounds_resumes(s: Seq<Instr>, m: MState, k: nat)
    requires
        halts_with(s, m),
    ensures
        run(s, init_state(), k).resumes <= m.resumes,
{
    let k1 = choose|j: nat| run(s, init_state(), j) == m && halted(s, m);
    if k <= k1 {
        lemma_resumes_grow(s, k, k1);
    } else {
        lemma_halted_stays(s, init_state(), k1, k);
    }
}

} // verus!

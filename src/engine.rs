//! The execution engine: direct call threading, bounded by a trampoline.
use vstd::prelude::*;
use crate::internal_instruction::{instr_ok, jump_target, Instr, InternalProgram, Pc};
use crate::semantics::{
    halts_with, init_state, lemma_halting_bounds_resumes, lemma_resume_step, run, step, MState,
    STACK_DEPTH_LIMIT,
};

verus! {

/// What one run carries besides its registers: the depth estimate since the
/// last resume, how many resumes there have been, and what was printed.
pub struct RunState {
    pub current_stack_depth: usize,
    pub resumes: usize,
    pub output: Vec<u32>,
}

/// The mutable part of a run: the register file and the run state.
pub struct RunArgs {
    pub memory: [u32; 256],
    pub state: RunState,
}

/// How a chain of directly dispatched instructions ends.
pub enum RunRet {
    /// The depth estimate passed the limit; resume at this position.
    UnwindAndContinue(Pc),
    /// The program reached `Ret`.
    Done,
}

/// What one instruction asks of its dispatcher.
pub enum RunOneRet {
    /// End the chain.
    RunRet(RunRet),
    /// Continue at a branch target.
    Branch(Pc),
    /// Continue at the next instruction in sequence.
    Continue,
}

/// `args` holds the run state `m`, stopped before instruction `i`.
pub open spec fn holds(args: &RunArgs, m: MState, i: int) -> bool {
    &&& m.pc == i
    &&& m.regs == args.memory@
    &&& m.out == args.state.output@
    &&& m.depth == args.state.current_stack_depth
    &&& m.resumes == args.state.resumes
}

impl RunArgs {
    /// Zeroed registers and a fresh run state.
    pub fn new() -> (r: RunArgs)
        ensures
            holds(&r, init_state(), 0),
    {
        let r = RunArgs {
            memory: [0u32; 256],
            state: RunState { current_stack_depth: 0, resumes: 0, output: Vec::new() },
        };
        assert(r.memory@ =~= init_state().regs);
        assert(r.state.output@ =~= Seq::<u32>::empty());
        r
    }
}

/// Performs the instruction at `pc` and says where to go next. A depth
/// charge that takes the estimate past the limit leaves it there and asks
/// for an unwind; the trampoline resets it.
fn run_one(prog: &InternalProgram, args: &mut RunArgs, pc: Pc, Ghost(m): Ghost<MState>) -> (r:
    RunOneRet)
    requires
        prog.wf(),
        prog.valid_pc(pc),
        holds(old(args), m, prog.index_of(pc)),
        !m.unwinding,
        m.depth <= STACK_DEPTH_LIMIT,
    ensures
        holds(final(args), step(prog.instrs(), m), step(prog.instrs(), m).pc),
        step(prog.instrs(), m).resumes == m.resumes,
        match r {
            RunOneRet::Continue => step(prog.instrs(), m).pc == m.pc + 1 && m.pc + 1
                < prog.instrs().len() && !step(prog.instrs(), m).unwinding,
            RunOneRet::Branch(p) => prog.valid_pc(p) && prog.index_of(p) == step(prog.instrs(), m).pc
                && prog.instrs()[m.pc] is JmpNe && step(prog.instrs(), m).pc == jump_target(
                prog.instrs(),
                m.pc,
            ) && !step(prog.instrs(), m).unwinding,
            RunOneRet::RunRet(RunRet::Done) => prog.instrs()[m.pc] is Ret,
            RunOneRet::RunRet(RunRet::UnwindAndContinue(p)) => {
                &&& prog.instrs()[m.pc] is UnwindIfNeeded
                &&& prog.valid_pc(p)
                &&& prog.index_of(p) == m.pc + 1
                &&& step(prog.instrs(), m).pc == m.pc + 1
                &&& step(prog.instrs(), m).unwinding
                &&& final(args).state.current_stack_depth == old(args).state.current_stack_depth
                    + prog.instrs()[m.pc]->UnwindIfNeeded_depth
                &&& final(args).state.current_stack_depth > STACK_DEPTH_LIMIT
            },
        },
        r matches RunOneRet::RunRet(RunRet::Done) ==> step(prog.instrs(), m) == m,
        r is Branch ==> step(prog.instrs(), m).depth == m.depth,
        r is Continue && prog.instrs()[m.pc] is UnwindIfNeeded ==> m.depth < step(
            prog.instrs(),
            m,
        ).depth <= STACK_DEPTH_LIMIT,
        r is Continue && !(prog.instrs()[m.pc] is UnwindIfNeeded) ==> step(prog.instrs(), m).depth
            == m.depth,
{
    let ghost s = prog.instrs();
    let ghost i = prog.index_of(pc);
    proof {
        assert(instr_ok(s, s.len() - 1));
        assert(instr_ok(s, i));
        reveal(step);
    }
    match pc.visit(prog) {
        Instr::Load { result, imm } => {
            args.memory[result as usize] = imm;
            assert(args.memory@ =~= step(s, m).regs);
            RunOneRet::Continue
        },
        Instr::Add { result, lhs, rhs } => {
            let v = args.memory[lhs as usize].wrapping_add(args.memory[rhs as usize]);
            args.memory[result as usize] = v;
            assert(args.memory@ =~= step(s, m).regs);
            RunOneRet::Continue
        },
        Instr::JmpNe { lhs, rhs, .. } => {
            if args.memory[lhs as usize] != args.memory[rhs as usize] {
                RunOneRet::Branch(pc.branch_target(prog))
            } else {
                RunOneRet::Continue
            }
        },
        Instr::Print { input } => {
            args.state.output.push(args.memory[input as usize]);
            RunOneRet::Continue
        },
        Instr::Ret => RunOneRet::RunRet(RunRet::Done),
        Instr::UnwindIfNeeded { depth } => {
            args.state.current_stack_depth = args.state.current_stack_depth + depth as usize;
            if args.state.current_stack_depth > STACK_DEPTH_LIMIT {
                RunOneRet::RunRet(RunRet::UnwindAndContinue(pc.next_pc_unchecked(prog)))
            } else {
                RunOneRet::Continue
            }
        },
    }
}

/// The measure that bounds a chain of direct dispatches: every branch is
/// preceded by a depth charge, and everything else moves forward.
pub open spec fn chain_measure(s: Seq<Instr>, i: int) -> int {
    if 0 <= i < s.len() && s[i] is JmpNe {
        s.len() + 1int
    } else {
        s.len() - i
    }
}

/// Runs instructions from `pc`, each one dispatching the next directly, until
/// `Ret` or until the depth estimate calls for an unwind. The chain of calls
/// is bounded by `chain_measure` and the depth estimate, whatever the program
/// computes, so the native stack stays bounded between resumes.
#[verifier::rlimit(50)]
fn run_from(
    prog: &InternalProgram,
    args: &mut RunArgs,
    pc: Pc,
    Ghost(n): Ghost<nat>,
) -> (r: RunRet)
    requires
        prog.wf(),
        prog.valid_pc(pc),
        holds(old(args), run(prog.instrs(), init_state(), n), prog.index_of(pc)),
        !run(prog.instrs(), init_state(), n).unwinding,
        old(args).state.current_stack_depth <= STACK_DEPTH_LIMIT,
    ensures
        match r {
            RunRet::Done => exists|k: nat|
                #![trigger run(prog.instrs(), init_state(), k)]
                holds(final(args), run(prog.instrs(), init_state(), k), run(
                    prog.instrs(),
                    init_state(),
                    k,
                ).pc) && halts_with(prog.instrs(), run(prog.instrs(), init_state(), k))
                    && final(args).state.resumes == old(args).state.resumes,
            RunRet::UnwindAndContinue(p) => prog.valid_pc(p) && exists|k: nat|
                #![trigger run(prog.instrs(), init_state(), k)]
                holds(final(args), run(prog.instrs(), init_state(), k), prog.index_of(p))
                    && run(prog.instrs(), init_state(), k).unwinding
                    && final(args).state.resumes == old(args).state.resumes,
        },
    decreases STACK_DEPTH_LIMIT + 1 - old(args).state.current_stack_depth, chain_measure(
        prog.instrs(),
        prog.index_of(pc),
    ),
{
    let ghost s = prog.instrs();
    let ghost m = run(s, init_state(), n);
    let ghost i = prog.index_of(pc);
    match run_one(prog, args, pc, Ghost(m)) {
        RunOneRet::RunRet(RunRet::Done) => {
            proof {
                assert(halts_with(s, m));
            }
            RunRet::Done
        },
        RunOneRet::RunRet(RunRet::UnwindAndContinue(p)) => {
            proof {
                assert(run(s, init_state(), n + 1) == step(s, m));
            }
            RunRet::UnwindAndContinue(p)
        },
        RunOneRet::Branch(p) => {
            proof {
                assert(run(s, init_state(), n + 1) == step(s, m));
                assert(instr_ok(s, i));
                let j = jump_target(s, i);
                assert(0 <= j < i && !(s[j] is JmpNe));
                assert(chain_measure(s, j) < chain_measure(s, i));
            }
            run_from(prog, args, p, Ghost(n + 1))
        },
        RunOneRet::Continue => {
            proof {
                assert(run(s, init_state(), n + 1) == step(s, m));
                assert(instr_ok(s, i + 1));
            }
            let next = pc.next_pc_unchecked(prog);
            run_from(prog, args, next, Ghost(n + 1))
        },
    }
}

/// `args` holds a point of the run of `prog` from fresh registers that stands
/// before the instruction at `pc`, with no unwind pending and the depth
/// estimate reset.
pub open spec fn resumable(prog: &InternalProgram, args: &RunArgs, pc: Pc) -> bool {
    &&& prog.valid_pc(pc)
    &&& args.state.current_stack_depth == 0
    &&& exists|k: nat|
        #![trigger run(prog.instrs(), init_state(), k)]
        holds(args, run(prog.instrs(), init_state(), k), prog.index_of(pc)) && !run(
            prog.instrs(),
            init_state(),
            k,
        ).unwinding
}

/// One turn of the trampoline: runs a stretch of direct dispatch from `pc`.
/// On `Ret` it returns `Done`; on an unwind it resets the depth estimate,
/// counts the resume, and returns where to resume.
pub fn resume_run(prog: &InternalProgram, args: &mut RunArgs, pc: Pc) -> (r: RunRet)
    requires
        prog.wf(),
        resumable(prog, old(args), pc),
        old(args).state.resumes < usize::MAX,
    ensures
        match r {
            RunRet::Done => final(args).state.resumes == old(args).state.resumes && exists|m: MState|
                halts_with(prog.instrs(), m) && holds(final(args), m, m.pc),
            RunRet::UnwindAndContinue(p) => resumable(prog, final(args), p)
                && final(args).state.resumes == old(args).state.resumes + 1,
        },
{
    let ghost n = choose|k: nat| #![trigger run(prog.instrs(), init_state(), k)]
        holds(args, run(prog.instrs(), init_state(), k), prog.index_of(pc)) && !run(
            prog.instrs(),
            init_state(),
            k,
        ).unwinding;
    match run_from(prog, args, pc, Ghost(n)) {
        RunRet::UnwindAndContinue(next) => {
            let ghost k = choose|k: nat| #![trigger run(prog.instrs(), init_state(), k)]
                holds(args, run(prog.instrs(), init_state(), k), prog.index_of(next)) && run(
                    prog.instrs(),
                    init_state(),
                    k,
                ).unwinding;
            args.state.current_stack_depth = 0;
            args.state.resumes = args.state.resumes + 1;
            proof {
                lemma_resume_step(prog.instrs(), run(prog.instrs(), init_state(), k));
                assert(run(prog.instrs(), init_state(), k + 1) == step(
                    prog.instrs(),
                    run(prog.instrs(), init_state(), k),
                ));
                assert(holds(args, run(prog.instrs(), init_state(), k + 1), prog.index_of(next)));
            }
            RunRet::UnwindAndContinue(next)
        },
        RunRet::Done => RunRet::Done,
    }
}

/// Runs a program from fresh registers to its `Ret`, turning the trampoline
/// until a stretch of dispatch ends at `Ret`. Returns the final registers
/// and run state, or `None` once `usize::MAX` resumes have been made; a run
/// that stops with fewer resumes always gives `Some`.
pub fn vm_loop(prog: &InternalProgram) -> (r: Option<RunArgs>)
    requires
        prog.wf(),
    ensures
        r matches Some(a) ==> a.state.resumes < usize::MAX && exists|m: MState|
            halts_with(prog.instrs(), m) && holds(&a, m, m.pc),
        r is None ==> exists|k: nat|
            #![trigger run(prog.instrs(), init_state(), k)]
            run(prog.instrs(), init_state(), k).resumes == usize::MAX,
        forall|m: MState|
            #[trigger] halts_with(prog.instrs(), m) && m.resumes < usize::MAX ==> r is Some,
{
    let mut args = RunArgs::new();
    let mut pc = prog.start();
    proof {
        assert(holds(&args, run(prog.instrs(), init_state(), 0), prog.index_of(pc)));
    }
    loop
        invariant
            prog.wf(),
            resumable(prog, &args, pc),
        decreases usize::MAX - args.state.resumes,
    {
        if args.state.resumes == usize::MAX {
            proof {
                let n = choose|k: nat| #![trigger run(prog.instrs(), init_state(), k)]
                    holds(&args, run(prog.instrs(), init_state(), k), prog.index_of(pc)) && !run(
                        prog.instrs(),
                        init_state(),
                        k,
                    ).unwinding;
                assert forall|m: MState|
                    halts_with(prog.instrs(), m) implies m.resumes >= usize::MAX by {
                    lemma_halting_bounds_resumes(prog.instrs(), m, n);
                }
            }
            return None;
        }
        match resume_run(prog, &mut args, pc) {
            RunRet::UnwindAndContinue(next) => {
                pc = next;
            },
            RunRet::Done => {
                return Some(args);
            },
        }
    }
}

} // verus!

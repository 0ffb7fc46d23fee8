use tail_call_vm::bytecode::Bytecode;
use tail_call_vm::convert::{convert, ConvertError};
use tail_call_vm::engine::{resume_run, vm_loop, RunArgs, RunRet};
use tail_call_vm::internal_instruction::{DisplayPc, Instr, InternalProgram, Opcode};

fn counting_program(n: u32) -> Vec<Bytecode> {
    vec![
        Bytecode::Load { dst: 0, imm: 0 },
        Bytecode::Load { dst: 1, imm: 1 },
        Bytecode::Load { dst: 2, imm: n },
        Bytecode::Add { dst: 0, lhs: 0, rhs: 1 },
        Bytecode::JmpNe { lhs: 0, rhs: 2, target: 3 },
        Bytecode::Print { src: 0 },
        Bytecode::Ret,
    ]
}

fn build(src: &[Bytecode]) -> InternalProgram {
    convert(src).unwrap()
}

fn printed(prog: &InternalProgram) -> Vec<u32> {
    vm_loop(prog).unwrap().state.output
}

#[test]
fn counting_loop_prints_one() {
    assert_eq!(printed(&build(&counting_program(1))), vec![1]);
}

#[test]
fn counting_loop_prints_two() {
    assert_eq!(printed(&build(&counting_program(2))), vec![2]);
}

#[test]
fn counting_loop_prints_large_count_with_resumes() {
    let run = vm_loop(&build(&counting_program(1048575))).unwrap();
    assert_eq!(run.state.output, vec![1048575]);
    // each pass charges 5 units; the 101st charge since a reset passes 500
    assert_eq!(run.state.resumes, 1048575 / 101);
    assert!(run.state.resumes >= 1);
}

#[test]
fn short_loop_never_resumes() {
    let run = vm_loop(&build(&counting_program(2))).unwrap();
    assert_eq!(run.state.resumes, 0);
}

#[test]
fn resumes_stay_within_branches_taken_plus_one() {
    for n in [1u32, 100, 101, 102, 5000] {
        let run = vm_loop(&build(&counting_program(n))).unwrap();
        // the branch is taken n - 1 times
        assert!(run.state.resumes <= (n as usize - 1) + 1);
    }
}

#[test]
fn same_program_twice_prints_the_same() {
    let prog = build(&counting_program(777));
    let first = vm_loop(&prog).unwrap();
    let second = vm_loop(&prog).unwrap();
    assert_eq!(first.state.output, second.state.output);
    assert_eq!(first.state.resumes, second.state.resumes);
    assert_eq!(first.memory, second.memory);
}

#[test]
fn program_without_print_prints_nothing() {
    let src = vec![
        Bytecode::Load { dst: 0, imm: 0 },
        Bytecode::Load { dst: 1, imm: 1 },
        Bytecode::Load { dst: 2, imm: 300 },
        Bytecode::Add { dst: 0, lhs: 0, rhs: 1 },
        Bytecode::JmpNe { lhs: 0, rhs: 2, target: 3 },
        Bytecode::Ret,
    ];
    let run = vm_loop(&build(&src)).unwrap();
    assert!(run.state.output.is_empty());
    assert_eq!(run.memory[0], 300);
}

#[test]
fn prints_in_program_order() {
    let src = vec![
        Bytecode::Load { dst: 7, imm: 42 },
        Bytecode::Print { src: 7 },
        Bytecode::Load { dst: 7, imm: 9 },
        Bytecode::Print { src: 7 },
        Bytecode::Print { src: 200 },
        Bytecode::Ret,
    ];
    assert_eq!(printed(&build(&src)), vec![42, 9, 0]);
}

#[test]
fn add_wraps_around() {
    let src = vec![
        Bytecode::Load { dst: 0, imm: u32::MAX },
        Bytecode::Load { dst: 1, imm: 2 },
        Bytecode::Add { dst: 2, lhs: 0, rhs: 1 },
        Bytecode::Print { src: 2 },
        Bytecode::Ret,
    ];
    assert_eq!(printed(&build(&src)), vec![1]);
}

#[test]
fn loop_to_itself_is_rejected() {
    let src = vec![
        Bytecode::JmpNe { lhs: 3, rhs: 4, target: 0 },
        Bytecode::Print { src: 3 },
        Bytecode::Ret,
    ];
    assert!(matches!(convert(&src), Err(ConvertError::ForwardBranch)));
    let later = vec![
        Bytecode::Print { src: 0 },
        Bytecode::JmpNe { lhs: 0, rhs: 1, target: 1 },
        Bytecode::Ret,
    ];
    assert!(matches!(convert(&later), Err(ConvertError::ForwardBranch)));
}

#[test]
fn branch_to_previous_instruction_without_taking() {
    let src = vec![
        Bytecode::Print { src: 3 },
        Bytecode::JmpNe { lhs: 3, rhs: 4, target: 0 },
        Bytecode::Ret,
    ];
    assert_eq!(printed(&build(&src)), vec![0]);
}

#[test]
fn encodes_load_little_endian() {
    let prog = build(&[Bytecode::Load { dst: 3, imm: 0x12345678 }, Bytecode::Ret]);
    assert_eq!(prog.to_bytes(), vec![0, 3, 0x78, 0x56, 0x34, 0x12, 4]);
    assert_eq!(prog.len(), 7);
}

#[test]
fn encodes_branch_with_depth_check() {
    let prog = build(&[
        Bytecode::Print { src: 1 },
        Bytecode::JmpNe { lhs: 1, rhs: 2, target: 0 },
        Bytecode::Ret,
    ]);
    // print, depth check of 2, branch back 10 bytes, ret
    assert_eq!(
        prog.to_bytes(),
        vec![3, 1, 5, 2, 0, 2, 1, 2, 0xf6, 0xff, 4]
    );
}

#[test]
fn disassembly_visits_each_instruction_once() {
    let prog = build(&counting_program(2));
    let listing = prog.disassemble();
    let expected = vec![
        (DisplayPc(0), Instr::Load { result: 0, imm: 0 }),
        (DisplayPc(6), Instr::Load { result: 1, imm: 1 }),
        (DisplayPc(12), Instr::Load { result: 2, imm: 2 }),
        (DisplayPc(18), Instr::Add { result: 0, lhs: 0, rhs: 1 }),
        (DisplayPc(22), Instr::UnwindIfNeeded { depth: 5 }),
        (DisplayPc(25), Instr::JmpNe { lhs: 0, rhs: 2, target: -12 }),
        (DisplayPc(30), Instr::Print { input: 0 }),
        (DisplayPc(32), Instr::Ret),
    ];
    assert_eq!(listing, expected);
    assert_eq!(prog.len(), 33);
}

#[test]
fn cursor_walks_the_program() {
    let prog = build(&counting_program(2));
    let mut pc = prog.start();
    let mut offsets = vec![];
    let mut opcodes = vec![];
    loop {
        offsets.push(pc.as_ptr());
        opcodes.push(pc.opcode(&prog));
        assert_eq!(prog.display_pc(pc), DisplayPc(pc.as_ptr()));
        match pc.next_pc_checked(&prog) {
            Some(next) => pc = next,
            None => break,
        }
    }
    assert_eq!(offsets, vec![0, 6, 12, 18, 22, 25, 30, 32]);
    assert_eq!(
        opcodes,
        vec![
            Opcode::OpLoad,
            Opcode::OpLoad,
            Opcode::OpLoad,
            Opcode::OpAdd,
            Opcode::OpUnwindIfNeeded,
            Opcode::OpJmpNE,
            Opcode::OpPrint,
            Opcode::OpRet,
        ]
    );
}

#[test]
fn branch_target_lands_on_loop_start() {
    let prog = build(&counting_program(2));
    let mut pc = prog.start();
    for _ in 0..5 {
        pc = pc.next_pc_unchecked(&prog);
    }
    assert_eq!(pc.visit(&prog), Instr::JmpNe { lhs: 0, rhs: 2, target: -12 });
    assert_eq!(pc.branch_target(&prog).as_ptr(), 18);
}

#[test]
fn empty_program_is_rejected() {
    assert!(matches!(convert(&[]), Err(ConvertError::MissingRet)));
}

#[test]
fn program_not_ending_in_ret_is_rejected() {
    let src = vec![Bytecode::Ret, Bytecode::Print { src: 0 }];
    assert!(matches!(convert(&src), Err(ConvertError::MissingRet)));
}

#[test]
fn forward_branch_is_rejected() {
    let src = vec![
        Bytecode::JmpNe { lhs: 0, rhs: 1, target: 2 },
        Bytecode::Print { src: 0 },
        Bytecode::Ret,
    ];
    assert!(matches!(convert(&src), Err(ConvertError::ForwardBranch)));
}

#[test]
fn branch_out_of_bounds_is_rejected() {
    let past_end = vec![Bytecode::JmpNe { lhs: 0, rhs: 1, target: 5 }, Bytecode::Ret];
    assert!(matches!(convert(&past_end), Err(ConvertError::TargetOutOfBounds)));
    let negative = vec![Bytecode::JmpNe { lhs: 0, rhs: 1, target: -1 }, Bytecode::Ret];
    assert!(matches!(convert(&negative), Err(ConvertError::TargetOutOfBounds)));
}

#[test]
fn wide_register_is_rejected() {
    let src = vec![Bytecode::Add { dst: 0, lhs: 256, rhs: 1 }, Bytecode::Ret];
    assert!(matches!(convert(&src), Err(ConvertError::OperandTooWide)));
    let src = vec![Bytecode::Print { src: 1000 }, Bytecode::Ret];
    assert!(matches!(convert(&src), Err(ConvertError::OperandTooWide)));
}

#[test]
fn long_branch_is_rejected() {
    // 5461 loads take 32766 bytes; with the 8 bytes of check and branch the
    // displacement is 32774 bytes back
    let mut src = vec![Bytecode::Load { dst: 0, imm: 0 }; 5461];
    src.push(Bytecode::JmpNe { lhs: 0, rhs: 1, target: 0 });
    src.push(Bytecode::Ret);
    assert!(matches!(convert(&src), Err(ConvertError::DisplacementOutOfRange)));
}

#[test]
fn longest_branch_is_accepted() {
    // 5460 loads take 32760 bytes: the branch goes back exactly 32768 bytes
    let mut src = vec![Bytecode::Load { dst: 0, imm: 0 }; 5460];
    src.push(Bytecode::JmpNe { lhs: 0, rhs: 1, target: 0 });
    src.push(Bytecode::Ret);
    let prog = build(&src);
    let listing = prog.disassemble();
    assert_eq!(listing[5461].1, Instr::JmpNe { lhs: 0, rhs: 1, target: -32768 });
    assert_eq!(printed(&prog), Vec::<u32>::new());
}

#[test]
fn branch_past_depth_range_is_rejected() {
    let mut src = vec![Bytecode::Ret; 65535];
    src.push(Bytecode::JmpNe { lhs: 0, rhs: 1, target: 65535 });
    src.push(Bytecode::Ret);
    assert!(matches!(convert(&src), Err(ConvertError::DepthTooLarge)));
}

#[test]
fn fresh_run_args_are_zeroed() {
    let args = RunArgs::new();
    assert!(args.memory.iter().all(|&r| r == 0));
    assert_eq!(args.state.current_stack_depth, 0);
    assert_eq!(args.state.resumes, 0);
    assert!(args.state.output.is_empty());
}

#[test]
fn depth_estimate_counts_since_last_resume() {
    let short = vm_loop(&build(&counting_program(2))).unwrap();
    assert_eq!(short.state.current_stack_depth, 10);
    let long = vm_loop(&build(&counting_program(1048575))).unwrap();
    // 1048575 charges of 5: 10381 resumes, then 94 charges since the last one
    assert_eq!(long.state.current_stack_depth, 5 * (1048575 % 101));
    assert_eq!(long.state.current_stack_depth, 470);
}

#[test]
fn trampoline_turns_one_stretch_at_a_time() {
    let prog = build(&counting_program(1000));
    let mut args = RunArgs::new();
    let mut pc = prog.start();
    let mut turns = 0usize;
    loop {
        match resume_run(&prog, &mut args, pc) {
            RunRet::UnwindAndContinue(next) => {
                turns += 1;
                assert_eq!(args.state.resumes, turns);
                assert_eq!(args.state.current_stack_depth, 0);
                // resumes at the branch that follows the depth charge
                assert_eq!(next.as_ptr(), 25);
                pc = next;
            }
            RunRet::Done => break,
        }
    }
    assert_eq!(turns, 1000 / 101);
    assert_eq!(args.state.output, vec![1000]);
}

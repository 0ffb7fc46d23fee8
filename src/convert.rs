//! Conversion of source instructions into the packed internal encoding.
use vstd::prelude::*;
use crate::bytecode::Bytecode;
use crate::internal_instruction::{
    instr_ok, encode_seq, lemma_encode_push, lemma_offset_push, offset, wf_instrs, Instr,
    InternalProgram,
};

verus! {

/// Why a source program cannot be converted.
#[derive(Clone, Copy, Debug, PartialEq, Eq, Structural)]
pub enum ConvertError {
    /// The program is empty or does not end in `Ret`.
    MissingRet,
    /// A register operand does not fit in a byte.
    OperandTooWide,
    /// The depth charged before a branch does not fit in 16 bits.
    DepthTooLarge,
    /// A branch names an index outside the program.
    TargetOutOfBounds,
    /// A branch does not go strictly backward: its target is its own index
    /// or a later one. Only backward branches are supported.
    ForwardBranch,
    /// A branch displacement does not fit in 16 signed bits, that is, lies
    /// outside `-32768..=32767` bytes.
    DisplacementOutOfRange,
}

pub open spec fn reg_ok(r: u32) -> bool {
    r < 256
}

/// The largest depth an `UnwindIfNeeded` can carry.
pub const MAX_DEPTH: usize = 65535;

/// The internal instructions for the first `k` source instructions, or the
/// first error met among them.
pub open spec fn lower(src: Seq<Bytecode>, k: nat) -> Result<Seq<Instr>, ConvertError>
    decreases k,
{
    if k == 0 {
        Ok(Seq::empty())
    } else {
        let i = k - 1;
        match lower(src, i as nat) {
            Err(e) => Err(e),
            Ok(prev) => match src[i] {
                Bytecode::Load { dst, imm } => if !reg_ok(dst) {
                    Err(ConvertError::OperandTooWide)
                } else {
                    Ok(prev.push(Instr::Load { result: dst as u8, imm }))
                },
                Bytecode::Add { dst, lhs, rhs } => if !reg_ok(dst) || !reg_ok(lhs) || !reg_ok(rhs) {
                    Err(ConvertError::OperandTooWide)
                } else {
                    Ok(prev.push(Instr::Add { result: dst as u8, lhs: lhs as u8, rhs: rhs as u8 }))
                },
                Bytecode::JmpNe { lhs, rhs, target } => if !reg_ok(lhs) || !reg_ok(rhs) {
                    Err(ConvertError::OperandTooWide)
                } else if i + 1 > MAX_DEPTH {
                    Err(ConvertError::DepthTooLarge)
                } else if target < 0 || target >= src.len() {
                    Err(ConvertError::TargetOutOfBounds)
                } else if target >= i {
                    Err(ConvertError::ForwardBranch)
                } else {
                    let disp = encode_seq(lower(src, target as nat)->Ok_0).len() - (encode_seq(
                        prev,
                    ).len() + 8);
                    if disp < -32768 || disp > 32767 {
                        Err(ConvertError::DisplacementOutOfRange)
                    } else {
                        Ok(
                            prev.push(Instr::UnwindIfNeeded { depth: (i + 1) as u16 }).push(
                                Instr::JmpNe { lhs: lhs as u8, rhs: rhs as u8, target: disp as i16 },
                            ),
                        )
                    }
                },
                Bytecode::Print { src: r } => if !reg_ok(r) {
                    Err(ConvertError::OperandTooWide)
                } else {
                    Ok(prev.push(Instr::Print { input: r as u8 }))
                },
                Bytecode::Ret => Ok(prev.push(Instr::Ret)),
            },
        }
    }
}

/// How many of the first `k` source instructions are branches.
pub open spec fn n_branches(src: Seq<Bytecode>, k: nat) -> nat
    decreases k,
{
    if k == 0 {
        0
    } else if src[k - 1] is JmpNe {
        n_branches(src, (k - 1) as nat) + 1
    } else {
        n_branches(src, (k - 1) as nat)
    }
}

/// Each source instruction gives one internal instruction, and each branch
/// one more: its depth check.
pub proof fn lemma_lower_len(src: Seq<Bytecode>, k: nat)
    requires
        lower(src, k) is Ok,
    ensures
        lower(src, k)->Ok_0.len() == k + n_branches(src, k),
    decreases k,
{
    if k > 0 {
        lemma_lower_len(src, (k - 1) as nat);
    }
}

/// The result of converting a whole source program.
pub open spec fn convert_spec(src: Seq<Bytecode>) -> Result<Seq<Instr>, ConvertError> {
    if src.len() == 0 || !(src.last() is Ret) {
        Err(ConvertError::MissingRet)
    } else {
        lower(src, src.len())
    }
}

proof fn lemma_instr_ok_push(s: Seq<Instr>, x: Instr, lim: int)
    requires
        0 <= lim <= s.len(),
        forall|k: int| 0 <= k < lim ==> #[trigger] instr_ok(s, k),
    ensures
        forall|k: int| 0 <= k < lim ==> #[trigger] instr_ok(s.push(x), k),
{
    let t = s.push(x);
    assert forall|k: int| 0 <= k < lim implies #[trigger] instr_ok(t, k) by {
        assert(instr_ok(s, k));
        assert(t[k] == s[k]);
        if s[k] is UnwindIfNeeded {
            assert(t[k + 1] == s[k + 1]);
        }
        if s[k] is JmpNe {
            let j = choose|j: int|
                0 <= j < k - 1 && !(s[j] is JmpNe) && offset(s, j) == offset(s, k + 1)
                    + s[k]->JmpNe_target;
            lemma_offset_push(s, x, j);
            lemma_offset_push(s, x, k + 1);
            assert(t[j] == s[j]);
            assert(t[k - 1] == s[k - 1]);
        }
    }
}

proof fn lemma_err_stays(src: Seq<Bytecode>, k: nat, m: nat)
    requires
        k <= m,
        lower(src, k) is Err,
    ensures
        lower(src, m) == lower(src, k),
    decreases m - k,
{
    if k < m {
        lemma_err_stays(src, k, (m - 1) as nat);
    }
}

/// What the conversion loop knows of source prefixes `0..=i` once `instrs`
/// holds the lowering of the first `i` source instructions.
spec fn prefixes_ok(src: Seq<Bytecode>, i: int, instrs: Seq<Instr>) -> bool {
    forall|t: nat|
        t <= i ==> {
            &&& #[trigger] lower(src, t) is Ok
            &&& lower(src, t)->Ok_0.len() <= instrs.len()
            &&& instrs.take(lower(src, t)->Ok_0.len() as int) == lower(src, t)->Ok_0
            &&& t < i ==> lower(src, t)->Ok_0.len() < instrs.len()
            &&& t < i ==> !(instrs[lower(src, t)->Ok_0.len() as int] is JmpNe)
        }
}

proof fn lemma_prefixes_push(src: Seq<Bytecode>, i: int, instrs: Seq<Instr>, x: Instr)
    requires
        0 <= i,
        prefixes_ok(src, i, instrs),
        lower(src, i as nat) == Ok::<Seq<Instr>, ConvertError>(instrs),
        !(x is JmpNe),
    ensures
        forall|t: nat|
            t <= i ==> {
                &&& #[trigger] lower(src, t) is Ok
                &&& lower(src, t)->Ok_0.len() < instrs.push(x).len()
                &&& instrs.push(x).take(lower(src, t)->Ok_0.len() as int) == lower(src, t)->Ok_0
                &&& !(instrs.push(x)[lower(src, t)->Ok_0.len() as int] is JmpNe)
            },
{
    let s2 = instrs.push(x);
    assert forall|t: nat| t <= i implies {
        &&& #[trigger] lower(src, t) is Ok
        &&& lower(src, t)->Ok_0.len() < s2.len()
        &&& s2.take(lower(src, t)->Ok_0.len() as int) == lower(src, t)->Ok_0
        &&& !(s2[lower(src, t)->Ok_0.len() as int] is JmpNe)
    } by {
        let l = lower(src, t)->Ok_0.len() as int;
        assert(s2.take(l) =~= instrs.take(l));
        if t == i {
            assert(instrs.take(l) =~= instrs);
        }
    }
}

/// Converts a source program into the internal encoding: each instruction is
/// encoded in order, and each branch is preceded by a stack-depth check
/// charging its source index plus one.
#[verifier::rlimit(100)]
#[verifier::spinoff_prover]
pub fn convert(bytecode: &[Bytecode]) -> (r: Result<InternalProgram, ConvertError>)
    requires
        bytecode@.len() <= usize::MAX / 8,
    ensures
        match r {
            Ok(p) => p.wf() && convert_spec(bytecode@) == Ok::<Seq<Instr>, ConvertError>(p.instrs())
                && p.instrs().len() == bytecode@.len() + n_branches(bytecode@, bytecode@.len()),
            Err(e) => convert_spec(bytecode@) == Err::<Seq<Instr>, ConvertError>(e),
        },
{
    let ghost src = bytecode@;
    let n = bytecode.len();
    if n == 0 {
        return Err(ConvertError::MissingRet);
    }
    match bytecode[n - 1] {
        Bytecode::Ret => {},
        _ => {
            return Err(ConvertError::MissingRet);
        },
    }
    let mut bytes: Vec<u8> = Vec::new();
    let mut byte_offsets: Vec<usize> = Vec::new();
    let ghost mut instrs: Seq<Instr> = Seq::empty();
    let mut index: usize = 0;
    proof {
        assert(instrs.take(0) =~= instrs);
    }
    while index < n
        invariant
            src == bytecode@,
            n == src.len(),
            n <= usize::MAX / 8,
            index <= n,
            src.len() >= 1 && src.last() is Ret,
            lower(src, index as nat) == Ok::<Seq<Instr>, ConvertError>(instrs),
            bytes@ == encode_seq(instrs),
            bytes@.len() <= 8 * index,
            byte_offsets@.len() == index,
            forall|t: nat|
                t < index ==> #[trigger] byte_offsets@[t as int] == encode_seq(lower(src, t)->Ok_0).len(),
            prefixes_ok(src, index as int, instrs),
            forall|k: int| 0 <= k < instrs.len() ==> #[trigger] instr_ok(instrs, k),
        decreases n - index,
    {
        byte_offsets.push(bytes.len());
        let ghost prev_len = bytes@.len();
        assert(prefixes_ok(src, index as int, instrs));
        match bytecode[index] {
            Bytecode::Load { dst, imm } => {
                if dst >= 256 {
                    proof {
                        lemma_err_stays(src, (index + 1) as nat, n as nat);
                    }
                    return Err(ConvertError::OperandTooWide);
                }
                let ins = Instr::Load { result: dst as u8, imm };
                ins.encode(&mut bytes);
                proof {
                    lemma_encode_push(instrs, ins);
                    lemma_prefixes_push(src, index as int, instrs, ins);
                    lemma_instr_ok_push(instrs, ins, instrs.len() as int);
                    instrs = instrs.push(ins);
                }
            },
            Bytecode::Add { dst, lhs, rhs } => {
                if dst >= 256 || lhs >= 256 || rhs >= 256 {
                    proof {
                        lemma_err_stays(src, (index + 1) as nat, n as nat);
                    }
                    return Err(ConvertError::OperandTooWide);
                }
                let ins = Instr::Add { result: dst as u8, lhs: lhs as u8, rhs: rhs as u8 };
                ins.encode(&mut bytes);
                proof {
                    lemma_encode_push(instrs, ins);
                    lemma_prefixes_push(src, index as int, instrs, ins);
                    lemma_instr_ok_push(instrs, ins, instrs.len() as int);
                    instrs = instrs.push(ins);
                }
            },
            Bytecode::JmpNe { lhs, rhs, target } => {
                if lhs >= 256 || rhs >= 256 {
                    proof {
                        lemma_err_stays(src, (index + 1) as nat, n as nat);
                    }
                    return Err(ConvertError::OperandTooWide);
                }
                if index + 1 > MAX_DEPTH {
                    proof {
                        lemma_err_stays(src, (index + 1) as nat, n as nat);
                    }
                    return Err(ConvertError::DepthTooLarge);
                }
                if target < 0 || target as usize >= n {
                    proof {
                        lemma_err_stays(src, (index + 1) as nat, n as nat);
                    }
                    return Err(ConvertError::TargetOutOfBounds);
                }
                let target = target as usize;
                if target >= index {
                    proof {
                        lemma_err_stays(src, (index + 1) as nat, n as nat);
                    }
                    return Err(ConvertError::ForwardBranch);
                }
                let check = Instr::UnwindIfNeeded { depth: (index + 1) as u16 };
                check.encode(&mut bytes);
                proof {
                    let l = lower(src, target as nat)->Ok_0.len() as int;
                    assert(lower(src, target as nat) is Ok);
                    crate::internal_instruction::lemma_offset_mono(instrs, l, instrs.len() as int);
                    crate::internal_instruction::lemma_offset_end(instrs);
                    assert(instrs.take(l) == lower(src, target as nat)->Ok_0);
                    assert(byte_offsets@[target as int] <= prev_len);
                }
                let after = bytes.len() + 5;
                let back = after - byte_offsets[target];
                if back > 32768 {
                    proof {
                        lemma_err_stays(src, (index + 1) as nat, n as nat);
                    }
                    return Err(ConvertError::DisplacementOutOfRange);
                }
                let disp: i16 = (-(back as i32)) as i16;
                let jmp = Instr::JmpNe { lhs: lhs as u8, rhs: rhs as u8, target: disp };
                jmp.encode(&mut bytes);
                proof {
                    lemma_encode_push(instrs, check);
                    lemma_prefixes_push(src, index as int, instrs, check);
                    lemma_instr_ok_push(instrs, check, instrs.len() as int);
                    let mid = instrs.push(check);
                    lemma_encode_push(mid, jmp);
                    lemma_instr_ok_push(mid, jmp, instrs.len() as int);
                    let fin = mid.push(jmp);
                    let j = lower(src, target as nat)->Ok_0.len() as int;
                    assert(j < instrs.len());
                    assert(fin[j] == mid[j]);
                    lemma_offset_push(mid, jmp, j);
                    lemma_offset_push(instrs, check, j);
                    assert(offset(instrs, j) == byte_offsets@[target as int]);
                    assert(fin.take(fin.len() as int) =~= fin);
                    assert(offset(fin, (mid.len() + 1) as int) == bytes@.len());
                    assert(instr_ok(fin, mid.len() as int));
                    assert(instr_ok(fin, instrs.len() as int));
                    assert forall|t: nat| t <= index implies {
                        &&& #[trigger] lower(src, t) is Ok
                        &&& lower(src, t)->Ok_0.len() <= fin.len()
                        &&& t < index + 1 ==> lower(src, t)->Ok_0.len() < fin.len()
                        &&& fin.take(lower(src, t)->Ok_0.len() as int) == lower(src, t)->Ok_0
                        &&& !(fin[lower(src, t)->Ok_0.len() as int] is JmpNe)
                    } by {
                        let l = lower(src, t)->Ok_0.len() as int;
                        assert(fin.take(l) =~= mid.take(l));
                        assert(fin[l] == mid[l]);
                    }
                    instrs = fin;
                }
            },
            Bytecode::Print { src: r } => {
                if r >= 256 {
                    proof {
                        lemma_err_stays(src, (index + 1) as nat, n as nat);
                    }
                    return Err(ConvertError::OperandTooWide);
                }
                let ins = Instr::Print { input: r as u8 };
                ins.encode(&mut bytes);
                proof {
                    lemma_encode_push(instrs, ins);
                    lemma_prefixes_push(src, index as int, instrs, ins);
                    lemma_instr_ok_push(instrs, ins, instrs.len() as int);
                    instrs = instrs.push(ins);
                }
            },
            Bytecode::Ret => {
                let ins = Instr::Ret;
                ins.encode(&mut bytes);
                proof {
                    lemma_encode_push(instrs, ins);
                    lemma_prefixes_push(src, index as int, instrs, ins);
                    lemma_instr_ok_push(instrs, ins, instrs.len() as int);
                    instrs = instrs.push(ins);
                }
            },
        }
        index = index + 1;
        proof {
            assert(lower(src, index as nat) == Ok::<Seq<Instr>, ConvertError>(instrs));
            assert(instrs.take(instrs.len() as int) =~= instrs);
        }
    }
    proof {
        assert(src.len() >= 1);
        assert(instrs.last() is Ret);
        assert(wf_instrs(instrs));
        lemma_lower_len(src, n as nat);
    }
    Ok(InternalProgram::new_unchecked(bytes, Ghost(instrs)))
}

/// Conversion fails on a program that does not end in `Ret`, on one with a
/// forward branch, and on a branch whose displacement does not fit in 16
/// signed bits.
pub proof fn lemma_convert_rejects(src: Seq<Bytecode>, i: int)
    ensures
        src.len() == 0 || !(src.last() is Ret) ==> convert_spec(src) == Err::<Seq<Instr>, ConvertError>(
            ConvertError::MissingRet,
        ),
        0 <= i < src.len() && src[i] is JmpNe && src[i]->JmpNe_target >= i ==> convert_spec(src) is Err,
        0 <= i < src.len() && src[i] is JmpNe && lower(src, i as nat) is Ok && ({
            let t = src[i]->JmpNe_target;
            &&& reg_ok(src[i]->JmpNe_lhs) && reg_ok(src[i]->JmpNe_rhs)
            &&& i + 1 <= MAX_DEPTH
            &&& 0 <= t < i
            &&& encode_seq(lower(src, i as nat)->Ok_0).len() + 8 - encode_seq(
                lower(src, t as nat)->Ok_0,
            ).len() > 32768
        }) ==> convert_spec(src) == Err::<Seq<Instr>, ConvertError>(
            ConvertError::DisplacementOutOfRange,
        ) || convert_spec(src) == Err::<Seq<Instr>, ConvertError>(ConvertError::MissingRet),
{
    if 0 <= i < src.len() && src[i] is JmpNe {
        if lower(src, (i + 1) as nat) is Err {
            lemma_err_stays(src, (i + 1) as nat, src.len());
        }
    }
}

} // verus!

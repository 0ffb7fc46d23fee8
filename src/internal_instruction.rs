//! The internal instruction set and its packed byte encoding.
use vstd::prelude::*;

verus! {

/// The discriminant byte that starts every encoded instruction.
#[derive(Clone, Copy, Debug, PartialEq, Eq, Structural)]
pub enum Opcode {
    OpLoad,
    OpAdd,
    OpJmpNE,
    OpPrint,
    OpRet,
    OpUnwindIfNeeded,
}

/// One decoded instruction with its operand fields.
#[derive(Clone, Copy, Debug, PartialEq, Eq, Structural)]
pub enum Instr {
    /// `result <- imm`
    Load { result: u8, imm: u32 },
    /// `result <- lhs + rhs` (wrapping)
    Add { result: u8, lhs: u8, rhs: u8 },
    /// Branch by `target` bytes, counted from the end of this instruction,
    /// when the two registers differ.
    JmpNe { lhs: u8, rhs: u8, target: i16 },
    /// Emit the value of a register.
    Print { input: u8 },
    /// Stop the program.
    Ret,
    /// Charge `depth` units to the run's stack estimate; unwind past the limit.
    UnwindIfNeeded { depth: u16 },
}

impl Instr {
    pub open spec fn opcode_spec(self) -> Opcode {
        match self {
            Instr::Load { .. } => Opcode::OpLoad,
            Instr::Add { .. } => Opcode::OpAdd,
            Instr::JmpNe { .. } => Opcode::OpJmpNE,
            Instr::Print { .. } => Opcode::OpPrint,
            Instr::Ret => Opcode::OpRet,
            Instr::UnwindIfNeeded { .. } => Opcode::OpUnwindIfNeeded,
        }
    }

    /// The opcode of this instruction.
    pub fn opcode(&self) -> (r: Opcode)
        ensures
            r == self.opcode_spec(),
    {
        match self {
            Instr::Load { .. } => Opcode::OpLoad,
            Instr::Add { .. } => Opcode::OpAdd,
            Instr::JmpNe { .. } => Opcode::OpJmpNE,
            Instr::Print { .. } => Opcode::OpPrint,
            Instr::Ret => Opcode::OpRet,
            Instr::UnwindIfNeeded { .. } => Opcode::OpUnwindIfNeeded,
        }
    }
}

pub open spec fn opcode_byte(op: Opcode) -> u8 {
    match op {
        Opcode::OpLoad => 0,
        Opcode::OpAdd => 1,
        Opcode::OpJmpNE => 2,
        Opcode::OpPrint => 3,
        Opcode::OpRet => 4,
        Opcode::OpUnwindIfNeeded => 5,
    }
}

/// Little-endian bytes of a 16-bit word.
pub open spec fn u16_bytes(v: u16) -> Seq<u8> {
    seq![(v & 0xff) as u8, (v >> 8u16) as u8]
}

/// Little-endian bytes of a 32-bit word.
pub open spec fn u32_bytes(v: u32) -> Seq<u8> {
    seq![
        (v & 0xff) as u8,
        ((v >> 8u32) & 0xff) as u8,
        ((v >> 16u32) & 0xff) as u8,
        (v >> 24u32) as u8,
    ]
}

/// The two's complement bit pattern of a signed 16-bit value.
pub open spec fn i16_bits(t: i16) -> u16 {
    if t < 0 {
        (t + 65536) as u16
    } else {
        t as u16
    }
}

/// The bytes of one instruction: its opcode byte, then its fields packed.
pub open spec fn encode_instr(i: Instr) -> Seq<u8> {
    seq![opcode_byte(i.opcode_spec())] + match i {
        Instr::Load { result, imm } => seq![result] + u32_bytes(imm),
        Instr::Add { result, lhs, rhs } => seq![result, lhs, rhs],
        Instr::JmpNe { lhs, rhs, target } => seq![lhs, rhs] + u16_bytes(i16_bits(target)),
        Instr::Print { input } => seq![input],
        Instr::Ret => Seq::<u8>::empty(),
        Instr::UnwindIfNeeded { depth } => u16_bytes(depth),
    }
}

/// The encoded length of one instruction.
pub open spec fn instr_size(i: Instr) -> nat {
    match i {
        Instr::Load { .. } => 6,
        Instr::Add { .. } => 4,
        Instr::JmpNe { .. } => 5,
        Instr::Print { .. } => 2,
        Instr::Ret => 1,
        Instr::UnwindIfNeeded { .. } => 3,
    }
}

/// The instructions laid out one after another, with no padding or index.
pub open spec fn encode_seq(s: Seq<Instr>) -> Seq<u8>
    decreases s.len(),
{
    if s.len() == 0 {
        Seq::empty()
    } else {
        encode_seq(s.drop_last()) + encode_instr(s.last())
    }
}

/// The byte offset at which instruction `i` of `s` begins.
pub open spec fn offset(s: Seq<Instr>, i: int) -> nat {
    encode_seq(s.take(i)).len()
}

pub proof fn lemma_instr_size(i: Instr)
    ensures
        encode_instr(i).len() == instr_size(i),
        instr_size(i) >= 1,
{
}

pub proof fn lemma_encode_push(s: Seq<Instr>, i: Instr)
    ensures
        encode_seq(s.push(i)) == encode_seq(s) + encode_instr(i),
{
    assert(s.push(i).drop_last() =~= s);
}

/// The encoding of a prefix is a prefix of the encoding.
pub proof fn lemma_encode_prefix(s: Seq<Instr>, k: int)
    requires
        0 <= k <= s.len(),
    ensures
        encode_seq(s.take(k)).len() <= encode_seq(s).len(),
        encode_seq(s).subrange(0, encode_seq(s.take(k)).len() as int) == encode_seq(s.take(k)),
    decreases s.len(),
{
    if k == s.len() {
        assert(s.take(k) =~= s);
        assert(encode_seq(s).subrange(0, encode_seq(s).len() as int) =~= encode_seq(s));
    } else {
        let p = s.drop_last();
        assert(p.take(k) =~= s.take(k));
        lemma_encode_prefix(p, k);
        let a = encode_seq(p);
        let b = encode_instr(s.last());
        let n = encode_seq(s.take(k)).len() as int;
        assert((a + b).subrange(0, n) =~= a.subrange(0, n));
    }
}

/// Instruction `i` is found, encoded, between its offset and the next one.
pub proof fn lemma_decode_at(s: Seq<Instr>, i: int)
    requires
        0 <= i < s.len(),
    ensures
        offset(s, i + 1) == offset(s, i) + instr_size(s[i]),
        offset(s, i + 1) <= encode_seq(s).len(),
        encode_seq(s).subrange(offset(s, i) as int, offset(s, i + 1) as int) == encode_instr(s[i]),
{
    let t = s.take(i + 1);
    assert(t.drop_last() =~= s.take(i));
    assert(t.last() == s[i]);
    lemma_instr_size(s[i]);
    lemma_encode_prefix(s, i + 1);
    let e = encode_seq(s);
    let a = encode_seq(s.take(i));
    let b = encode_instr(s[i]);
    assert(e.subrange(offset(s, i) as int, offset(s, i + 1) as int) =~= (a + b).subrange(
        a.len() as int,
        (a.len() + b.len()) as int,
    ));
    assert((a + b).subrange(a.len() as int, (a.len() + b.len()) as int) =~= b);
}

/// Offsets grow with the index.
pub proof fn lemma_offset_mono(s: Seq<Instr>, i: int, j: int)
    requires
        0 <= i <= j <= s.len(),
    ensures
        offset(s, i) <= offset(s, j),
        i < j ==> offset(s, i) < offset(s, j),
    decreases j - i,
{
    if i < j {
        lemma_decode_at(s, j - 1);
        lemma_offset_mono(s, i, j - 1);
    }
}

/// The whole buffer ends where the last instruction ends.
pub proof fn lemma_offset_end(s: Seq<Instr>)
    ensures
        offset(s, s.len() as int) == encode_seq(s).len(),
{
    assert(s.take(s.len() as int) =~= s);
}

/// An offset of a prefix is unchanged by pushing more instructions.
pub proof fn lemma_offset_push(s: Seq<Instr>, x: Instr, i: int)
    requires
        0 <= i <= s.len(),
    ensures
        offset(s.push(x), i) == offset(s, i),
{
    assert(s.push(x).take(i) =~= s.take(i));
}

pub proof fn lemma_u16_roundtrip(v: u16)
    ensures
        ((u16_bytes(v)[0] as u16) | ((u16_bytes(v)[1] as u16) << 8u16)) == v,
{
    assert((v & 0xff) <= 0xff) by (bit_vector);
    assert((v >> 8u16) <= 0xff) by (bit_vector);
    assert(v == (v & 0xff) | ((v >> 8u16) << 8u16)) by (bit_vector);
}

pub proof fn lemma_u32_roundtrip(v: u32)
    ensures
        ((u32_bytes(v)[0] as u32) | ((u32_bytes(v)[1] as u32) << 8u32) | ((u32_bytes(v)[2] as u32)
            << 16u32) | ((u32_bytes(v)[3] as u32) << 24u32)) == v,
{
    assert((v & 0xff) <= 0xff) by (bit_vector);
    assert(((v >> 8u32) & 0xff) <= 0xff) by (bit_vector);
    assert(((v >> 16u32) & 0xff) <= 0xff) by (bit_vector);
    assert((v >> 24u32) <= 0xff) by (bit_vector);
    assert(v == (v & 0xff) | (((v >> 8u32) & 0xff) << 8u32) | (((v >> 16u32) & 0xff) << 16u32)
        | ((v >> 24u32) << 24u32)) by (bit_vector);
}

fn push_u16(bytes: &mut Vec<u8>, v: u16)
    ensures
        final(bytes)@ == old(bytes)@ + u16_bytes(v),
{
    assert((v & 0xff) <= 0xff) by (bit_vector);
    assert((v >> 8u16) <= 0xff) by (bit_vector);
    bytes.push((v & 0xff) as u8);
    bytes.push((v >> 8u16) as u8);
    assert(final(bytes)@ =~= old(bytes)@ + u16_bytes(v));
}

fn push_u32(bytes: &mut Vec<u8>, v: u32)
    ensures
        final(bytes)@ == old(bytes)@ + u32_bytes(v),
{
    assert((v & 0xff) <= 0xff) by (bit_vector);
    assert(((v >> 8u32) & 0xff) <= 0xff) by (bit_vector);
    assert(((v >> 16u32) & 0xff) <= 0xff) by (bit_vector);
    assert((v >> 24u32) <= 0xff) by (bit_vector);
    bytes.push((v & 0xff) as u8);
    bytes.push(((v >> 8u32) & 0xff) as u8);
    bytes.push(((v >> 16u32) & 0xff) as u8);
    bytes.push((v >> 24u32) as u8);
    assert(final(bytes)@ =~= old(bytes)@ + u32_bytes(v));
}

fn opcode_to_byte(op: Opcode) -> (r: u8)
    ensures
        r == opcode_byte(op),
{
    match op {
        Opcode::OpLoad => 0,
        Opcode::OpAdd => 1,
        Opcode::OpJmpNE => 2,
        Opcode::OpPrint => 3,
        Opcode::OpRet => 4,
        Opcode::OpUnwindIfNeeded => 5,
    }
}

impl Instr {
    /// Appends the encoding of this instruction to `bytes`.
    pub fn encode(&self, bytes: &mut Vec<u8>)
        ensures
            final(bytes)@ == old(bytes)@ + encode_instr(*self),
    {
        let ghost start = bytes@;
        bytes.push(opcode_to_byte(self.opcode()));
        match *self {
            Instr::Load { result, imm } => {
                bytes.push(result);
                push_u32(bytes, imm);
            },
            Instr::Add { result, lhs, rhs } => {
                bytes.push(result);
                bytes.push(lhs);
                bytes.push(rhs);
            },
            Instr::JmpNe { lhs, rhs, target } => {
                bytes.push(lhs);
                bytes.push(rhs);
                let bits: u16 = if target < 0 {
                    (target as i32 + 65536) as u16
                } else {
                    target as u16
                };
                push_u16(bytes, bits);
            },
            Instr::Print { input } => {
                bytes.push(input);
            },
            Instr::Ret => {},
            Instr::UnwindIfNeeded { depth } => {
                push_u16(bytes, depth);
            },
        }
        assert(bytes@ =~= start + encode_instr(*self));
    }
}

/// Every depth charge is positive and guards a branch, and a branch is
/// guarded by a depth charge just before it and lands before that charge, on
/// an instruction that is not itself a branch.
pub open spec fn instr_ok(s: Seq<Instr>, i: int) -> bool {
    &&& s[i] is UnwindIfNeeded ==> s[i]->UnwindIfNeeded_depth >= 1 && i + 1 < s.len() && s[i
        + 1] is JmpNe
    &&& s[i] is JmpNe ==> {
        &&& 1 <= i
        &&& s[i - 1] is UnwindIfNeeded
        &&& s[i - 1]->UnwindIfNeeded_depth >= 1
        &&& exists|j: int|
            0 <= j < i - 1 && !(s[j] is JmpNe) && offset(s, j) == offset(s, i + 1) + s[i]->JmpNe_target
    }
}

/// The instruction a taken branch at `i` lands on.
pub open spec fn jump_target(s: Seq<Instr>, i: int) -> int {
    choose|j: int|
        0 <= j < i - 1 && !(s[j] is JmpNe) && offset(s, j) == offset(s, i + 1) + s[i]->JmpNe_target
}

/// What every program produced by conversion satisfies: it ends in `Ret`,
/// and each branch is backward and guarded.
pub open spec fn wf_instrs(s: Seq<Instr>) -> bool {
    &&& s.len() >= 1
    &&& s.last() is Ret
    &&& forall|i: int| 0 <= i < s.len() ==> #[trigger] instr_ok(s, i)
}

/// A position in an internal program, as a byte offset.
#[derive(Clone, Copy, Debug, PartialEq, Eq, Structural)]
pub struct Pc {
    pos: usize,
}

impl Pc {
    pub closed spec fn pos_spec(self) -> int {
        self.pos as int
    }

    /// The byte offset of this position.
    pub fn as_ptr(self) -> (r: usize)
        ensures
            r == self.pos_spec(),
    {
        self.pos
    }
}

/// A byte offset, shown as an address in listings.
#[derive(Clone, Copy, Debug, PartialEq, Eq, Structural)]
pub struct DisplayPc(pub usize);

/// An immutable, packed program: its bytes and the instructions they encode.
pub struct InternalProgram {
    bytes: Vec<u8>,
    instrs: Ghost<Seq<Instr>>,
}

impl InternalProgram {
    /// The instructions the bytes encode, in order.
    pub closed spec fn instrs(&self) -> Seq<Instr> {
        self.instrs@
    }

    /// The bytes of the program.
    pub closed spec fn bytes_view(&self) -> Seq<u8> {
        self.bytes@
    }

    pub open spec fn wf(&self) -> bool {
        &&& wf_instrs(self.instrs())
        &&& self.bytes_view() == encode_seq(self.instrs())
    }

    /// `pc` is the start of instruction `i`.
    pub open spec fn at(&self, pc: Pc, i: int) -> bool {
        0 <= i < self.instrs().len() && pc.pos_spec() == offset(self.instrs(), i)
    }

    pub open spec fn valid_pc(&self, pc: Pc) -> bool {
        exists|i: int| self.at(pc, i)
    }

    /// The index of the instruction that starts at `pc`.
    pub open spec fn index_of(&self, pc: Pc) -> int {
        choose|i: int| self.at(pc, i)
    }

    /// Wraps bytes that encode `instrs`; used for the converter's output only.
    pub(crate) fn new_unchecked(bytes: Vec<u8>, Ghost(instrs): Ghost<Seq<Instr>>) -> (r: Self)
        requires
            wf_instrs(instrs),
            bytes@ == encode_seq(instrs),
        ensures
            r.wf(),
            r.instrs() == instrs,
            r.bytes_view() == bytes@,
    {
        InternalProgram { bytes, instrs: Ghost(instrs) }
    }

    /// The number of bytes in the program.
    pub fn len(&self) -> (r: usize)
        ensures
            r == self.bytes_view().len(),
    {
        self.bytes.len()
    }

    /// A copy of the program's bytes.
    pub fn to_bytes(&self) -> (r: Vec<u8>)
        ensures
            r@ == self.bytes_view(),
    {
        self.bytes.clone()
    }

    /// The position of the first instruction.
    pub fn start(&self) -> (r: Pc)
        requires
            self.wf(),
        ensures
            self.valid_pc(r),
            self.index_of(r) == 0,
    {
        let r = Pc { pos: 0 };
        proof {
            assert(self.instrs().take(0) =~= Seq::<Instr>::empty());
            assert(self.at(r, 0));
            self.lemma_index_unique(r, 0);
        }
        r
    }

    /// The address of `pc` within this program.
    pub fn display_pc(&self, pc: Pc) -> (r: DisplayPc)
        ensures
            r.0 == pc.pos_spec(),
    {
        DisplayPc(pc.pos)
    }

    /// A position starts at most one instruction.
    pub proof fn lemma_index_unique(&self, pc: Pc, i: int)
        requires
            self.at(pc, i),
        ensures
            self.valid_pc(pc),
            self.index_of(pc) == i,
    {
        let j = self.index_of(pc);
        if j < i {
            lemma_offset_mono(self.instrs(), j, i);
        } else if i < j {
            lemma_offset_mono(self.instrs(), i, j);
        }
    }

    /// The program's bytes end exactly where its last instruction ends.
    pub proof fn lemma_layout(&self)
        requires
            self.wf(),
        ensures
            offset(self.instrs(), self.instrs().len() as int) == self.bytes_view().len(),
    {
        lemma_offset_end(self.instrs());
    }

    /// Lists each instruction once, in order, with the offset it starts at.
    pub fn disassemble(&self) -> (r: Vec<(DisplayPc, Instr)>)
        requires
            self.wf(),
        ensures
            r@.len() == self.instrs().len(),
            forall|k: int|
                0 <= k < r@.len() ==> r@[k] == (DisplayPc(offset(self.instrs(), k) as usize), self.instrs()[k]),
            offset(self.instrs(), r@.len() as int) == self.bytes_view().len(),
    {
        let mut out: Vec<(DisplayPc, Instr)> = Vec::new();
        let mut pc = self.start();
        proof {
            self.lemma_layout();
        }
        loop
            invariant
                self.wf(),
                self.valid_pc(pc),
                self.index_of(pc) == out@.len(),
                forall|k: int|
                    0 <= k < out@.len() ==> out@[k] == (DisplayPc(offset(self.instrs(), k) as usize), self.instrs()[k]),
                offset(self.instrs(), self.instrs().len() as int) == self.bytes_view().len(),
            decreases self.instrs().len() - out@.len(),
        {
            let instr = pc.visit(self);
            out.push((self.display_pc(pc), instr));
            match pc.next_pc_checked(self) {
                None => {
                    return out;
                },
                Some(next) => {
                    pc = next;
                },
            }
        }
    }
}

impl Pc {
    /// Reads the opcode byte at this position.
    pub fn opcode(self, prog: &InternalProgram) -> (r: Opcode)
        requires
            prog.wf(),
            prog.valid_pc(self),
        ensures
            r == prog.instrs()[prog.index_of(self)].opcode_spec(),
    {
        let ghost s = prog.instrs();
        let ghost i = prog.index_of(self);
        proof {
            lemma_decode_at(s, i);
            assert(prog.bytes@[self.pos as int] == encode_instr(s[i])[0]);
        }
        let b = prog.bytes[self.pos];
        if b == 0 {
            Opcode::OpLoad
        } else if b == 1 {
            Opcode::OpAdd
        } else if b == 2 {
            Opcode::OpJmpNE
        } else if b == 3 {
            Opcode::OpPrint
        } else if b == 4 {
            Opcode::OpRet
        } else {
            Opcode::OpUnwindIfNeeded
        }
    }

    /// Decodes the instruction at this position with its fields.
    pub fn visit(self, prog: &InternalProgram) -> (r: Instr)
        requires
            prog.wf(),
            prog.valid_pc(self),
        ensures
            r == prog.instrs()[prog.index_of(self)],
    {
        let ghost s = prog.instrs();
        let ghost i = prog.index_of(self);
        let ghost e = encode_instr(s[i]);
        proof {
            lemma_decode_at(s, i);
            assert forall|k: int| 0 <= k < e.len() implies prog.bytes@[self.pos + k] == e[k] by {
                assert(prog.bytes@.subrange(offset(s, i) as int, offset(s, i + 1) as int)[k] == e[k]);
            }
        }
        let p = self.pos;
        let b = &prog.bytes;
        proof {
            assert(b.len() == b@.len());
        }
        match self.opcode(prog) {
            Opcode::OpLoad => {
                proof {
                    let v = s[i]->Load_imm;
                    lemma_u32_roundtrip(v);
                    assert(e == seq![0u8, s[i]->Load_result] + u32_bytes(v));
                    assert(b@[p + 1] == e[1]);
                    assert(e[2] == u32_bytes(v)[0]);
                    assert(b@[p + 2] == e[2]);
                    assert(e[3] == u32_bytes(v)[1]);
                    assert(b@[p + 3] == e[3]);
                    assert(e[4] == u32_bytes(v)[2]);
                    assert(b@[p + 4] == e[4]);
                    assert(e[5] == u32_bytes(v)[3]);
                    assert(b@[p + 5] == e[5]);
                }
                let imm: u32 = (b[p + 2] as u32) | ((b[p + 3] as u32) << 8u32) | ((b[p + 4] as u32)
                    << 16u32) | ((b[p + 5] as u32) << 24u32);
                Instr::Load { result: b[p + 1], imm }
            },
            Opcode::OpAdd => {
                proof {
                    assert(e == seq![1u8, s[i]->Add_result, s[i]->Add_lhs, s[i]->Add_rhs]);
                    assert(b@[p + 1] == e[1]);
                    assert(b@[p + 2] == e[2]);
                    assert(b@[p + 3] == e[3]);
                }
                Instr::Add { result: b[p + 1], lhs: b[p + 2], rhs: b[p + 3] }
            },
            Opcode::OpJmpNE => {
                proof {
                    let v = i16_bits(s[i]->JmpNe_target);
                    lemma_u16_roundtrip(v);
                    assert(e == seq![2u8, s[i]->JmpNe_lhs, s[i]->JmpNe_rhs] + u16_bytes(v));
                    assert(b@[p + 1] == e[1]);
                    assert(b@[p + 2] == e[2]);
                    assert(e[3] == u16_bytes(v)[0]);
                    assert(e[4] == u16_bytes(v)[1]);
                    assert(b@[p + 3] == e[3]);
                    assert(b@[p + 4] == e[4]);
                }
                let bits: u16 = (b[p + 3] as u16) | ((b[p + 4] as u16) << 8u16);
                let target: i16 = if bits >= 32768 {
                    (bits as i32 - 65536) as i16
                } else {
                    bits as i16
                };
                assert(target == s[i]->JmpNe_target);
                Instr::JmpNe { lhs: b[p + 1], rhs: b[p + 2], target }
            },
            Opcode::OpPrint => {
                proof {
                    assert(e == seq![3u8, s[i]->Print_input]);
                    assert(b@[p + 1] == e[1]);
                }
                Instr::Print { input: b[p + 1] }
            },
            Opcode::OpRet => Instr::Ret,
            Opcode::OpUnwindIfNeeded => {
                proof {
                    let v = s[i]->UnwindIfNeeded_depth;
                    lemma_u16_roundtrip(v);
                    assert(e == seq![5u8] + u16_bytes(v));
                    assert(e[1] == u16_bytes(v)[0]);
                    assert(e[2] == u16_bytes(v)[1]);
                    assert(b@[p + 1] == e[1]);
                    assert(b@[p + 2] == e[2]);
                }
                let depth: u16 = (b[p + 1] as u16) | ((b[p + 2] as u16) << 8u16);
                Instr::UnwindIfNeeded { depth }
            },
        }
    }

    fn size(op: Opcode) -> (r: usize)
        ensures
            forall|i: Instr| i.opcode_spec() == op ==> r == instr_size(i),
    {
        match op {
            Opcode::OpLoad => 6,
            Opcode::OpAdd => 4,
            Opcode::OpJmpNE => 5,
            Opcode::OpPrint => 2,
            Opcode::OpRet => 1,
            Opcode::OpUnwindIfNeeded => 3,
        }
    }

    /// The position of the next instruction in sequence; there must be one.
    pub fn next_pc_unchecked(self, prog: &InternalProgram) -> (r: Pc)
        requires
            prog.wf(),
            prog.valid_pc(self),
            prog.index_of(self) + 1 < prog.instrs().len(),
        ensures
            prog.valid_pc(r),
            prog.index_of(r) == prog.index_of(self) + 1,
    {
        let ghost i = prog.index_of(self);
        proof {
            lemma_decode_at(prog.instrs(), i);
        }
        proof {
            assert(prog.bytes.len() == prog.bytes@.len());
        }
        let r = Pc { pos: self.pos + Pc::size(self.opcode(prog)) };
        proof {
            assert(prog.at(r, i + 1));
            prog.lemma_index_unique(r, i + 1);
        }
        r
    }

    /// The position of the next instruction in sequence, or `None` past the last.
    pub fn next_pc_checked(self, prog: &InternalProgram) -> (r: Option<Pc>)
        requires
            prog.wf(),
            prog.valid_pc(self),
        ensures
            r is None <==> prog.index_of(self) + 1 == prog.instrs().len(),
            r matches Some(p) ==> prog.valid_pc(p) && prog.index_of(p) == prog.index_of(self) + 1,
    {
        let ghost s = prog.instrs();
        let ghost i = prog.index_of(self);
        proof {
            lemma_decode_at(s, i);
            prog.lemma_layout();
            if i + 1 < s.len() {
                lemma_offset_mono(s, i + 1, s.len() as int);
            }
        }
        proof {
            assert(prog.bytes.len() == prog.bytes@.len());
        }
        let next = self.pos + Pc::size(self.opcode(prog));
        if next == prog.bytes.len() {
            None
        } else {
            let r = Pc { pos: next };
            proof {
                assert(prog.at(r, i + 1));
                prog.lemma_index_unique(r, i + 1);
            }
            Some(r)
        }
    }

    /// Where the branch at this position goes when taken.
    pub fn branch_target(self, prog: &InternalProgram) -> (r: Pc)
        requires
            prog.wf(),
            prog.valid_pc(self),
            prog.instrs()[prog.index_of(self)] is JmpNe,
        ensures
            prog.valid_pc(r),
            prog.index_of(r) == jump_target(prog.instrs(), prog.index_of(self)),
    {
        let ghost s = prog.instrs();
        let ghost i = prog.index_of(self);
        let ghost j = jump_target(s, i);
        proof {
            assert(instr_ok(s, i));
            lemma_decode_at(s, i);
            lemma_offset_mono(s, j, i);
        }
        let target = match self.visit(prog) {
            Instr::JmpNe { target, .. } => target,
            _ => 0,
        };
        proof {
            assert(prog.bytes.len() == prog.bytes@.len());
        }
        let back: usize = (-(target as i32)) as usize;
        let r = Pc { pos: self.pos + 5 - back };
        proof {
            assert(prog.at(r, j));
            prog.lemma_index_unique(r, j);
        }
        r
    }
}

} // verus!

//! Virtual instructions and the assembler.
//!
//! An operand byte carries a two-bit tag in its low bits (`00` a register
//! of the current frame, `01` an entry of the constant pool; the remaining
//! tags are reserved) and a six-bit index above. The assembler gathers
//! instructions, constants and child assemblers, tracks the register
//! requirement as it goes, and emits an immutable code object tree.

use vstd::prelude::*;

use crate::ast::ConstVal;
use crate::value::{ValueRef, INT_END, INT_MIN};
use crate::vm::{CodeObject, PackedInstr};

verus! {

/// Unpacked representation for complex operands of virtual instructions.
#[derive(Clone, Copy, PartialEq, Eq, Structural)]
pub enum Operand {
    Local(u8),
    Const(u8),
}

/// The byte encoding an operand: the index shifted above the two tag bits.
pub open spec fn spec_operand_byte(op: Operand) -> int {
    match op {
        Operand::Local(i) => i * 4,
        Operand::Const(i) => i * 4 + 1,
    }
}

/// The operand a byte denotes, for the two assigned tags.
pub open spec fn spec_byte_operand(b: int) -> Operand {
    if b % 4 == 0 {
        Operand::Local((b / 4) as u8)
    } else {
        Operand::Const((b / 4) as u8)
    }
}

impl Operand {
    /// The register index of a `Local` operand.
    pub fn local_index(&self) -> (r: Option<u8>)
        ensures
            r == match *self {
                Operand::Local(i) => Some(i),
                Operand::Const(..) => None,
            },
    {
        match self {
            Operand::Local(i) => Some(*i),
            Operand::Const(..) => None,
        }
    }

    /// Pack the operand into its byte. The index must fit the six index
    /// bits.
    pub fn to_byte(&self) -> (r: u8)
        requires
            self.spec_index() < 64,
        ensures
            r == spec_operand_byte(*self),
            spec_byte_operand(r as int) == *self,
            r % 4 == 0 || r % 4 == 1,
    {
        match self {
            Operand::Local(i) => *i * 4,
            Operand::Const(i) => *i * 4 + 1,
        }
    }

    /// Unpack a byte with an assigned tag; the reserved tags decode to
    /// nothing.
    pub fn from_byte(b: u8) -> (r: Option<Operand>)
        ensures
            b % 4 == 0 || b % 4 == 1 ==> r == Some(spec_byte_operand(b as int)),
            b % 4 == 2 || b % 4 == 3 ==> r is None,
    {
        if b % 4 == 0 {
            Some(Operand::Local(b / 4))
        } else if b % 4 == 1 {
            Some(Operand::Const(b / 4))
        } else {
            None
        }
    }

    /// The operand's index, whichever the tag.
    pub open spec fn spec_index(&self) -> int {
        match *self {
            Operand::Local(i) => i as int,
            Operand::Const(i) => i as int,
        }
    }

    /// The register index a `Local` operand names, or nothing.
    pub open spec fn spec_local_index(&self) -> Option<u8> {
        match *self {
            Operand::Local(i) => Some(i),
            Operand::Const(..) => None,
        }
    }
}

/// Unpacked virtual instruction.
#[derive(Clone, Copy, PartialEq, Eq, Structural)]
pub enum Instr {
    Mov(u8, Operand),
    SvK(u16),
    Fun(u8, u16),
    IAdd(u8, Operand, Operand),
    ISub(u8, Operand, Operand),
    IMul(u8, Operand, Operand),
    ILt(Operand, Operand),
    Br(u16),
    Call(u16),
    Ret(Operand),
    Halt(Operand),
}

/// The largest register index the instruction touches, if any: each
/// destination register and each `Local` operand counts.
pub open spec fn spec_max_reg(i: Instr) -> Option<u8> {
    match i {
        Instr::SvK(..) | Instr::Br(..) | Instr::Call(..) => None,
        Instr::Fun(dest, _) => Some(dest),
        Instr::Mov(dest, si) => Some(
            max_u8(
                match si.spec_local_index() {
                    Some(x) => x,
                    None => 0,
                },
                dest,
            ),
        ),
        Instr::IAdd(di, li, ri) | Instr::ISub(di, li, ri) | Instr::IMul(di, li, ri) => Some(
            max_u8(
                max_u8(
                    match li.spec_local_index() {
                        Some(x) => x,
                        None => 0,
                    },
                    match ri.spec_local_index() {
                        Some(x) => x,
                        None => 0,
                    },
                ),
                di,
            ),
        ),
        Instr::ILt(li, ri) => match (li.spec_local_index(), ri.spec_local_index()) {
            (Some(x), Some(y)) => Some(max_u8(x, y)),
            (Some(x), None) => Some(x),
            (None, Some(y)) => Some(y),
            (None, None) => None,
        },
        Instr::Ret(ri) | Instr::Halt(ri) => ri.spec_local_index(),
    }
}

/// The larger of two bytes.
pub open spec fn max_u8(a: u8, b: u8) -> u8 {
    if a >= b {
        a
    } else {
        b
    }
}

/// How many registers the instruction needs: one past its largest touched
/// register index, or none.
pub open spec fn spec_reg_need(i: Instr) -> int {
    match spec_max_reg(i) {
        None => 0,
        Some(m) => m + 1,
    }
}

/// The register requirement of a code sequence: the maximum of each
/// destination register index plus one and each `Local` operand index plus
/// one, across the code.
pub open spec fn spec_code_reg_req(code: Seq<Instr>) -> int
    decreases code.len(),
{
    if code.len() == 0 {
        0
    } else {
        let rest = spec_code_reg_req(code.drop_last());
        if spec_reg_need(code.last()) >= rest {
            spec_reg_need(code.last())
        } else {
            rest
        }
    }
}

impl Instr {
    /// The largest register index the instruction touches, if any.
    pub fn max_reg(&self) -> (r: Option<u8>)
        ensures
            r == spec_max_reg(*self),
    {
        match *self {
            Instr::SvK(..) | Instr::Br(..) | Instr::Call(..) => None,
            Instr::Fun(dest, _) => Some(dest),
            Instr::Mov(dest, si) => {
                let s = or_zero(si.local_index());
                Some(
                    if s >= dest {
                        s
                    } else {
                        dest
                    },
                )
            },
            Instr::IAdd(di, li, ri) | Instr::ISub(di, li, ri) | Instr::IMul(di, li, ri) => {
                let l = or_zero(li.local_index());
                let rr = or_zero(ri.local_index());
                let m = if l >= rr {
                    l
                } else {
                    rr
                };
                Some(
                    if m >= di {
                        m
                    } else {
                        di
                    },
                )
            },
            Instr::ILt(li, ri) => {
                match (li.local_index(), ri.local_index()) {
                    (Some(x), Some(y)) => Some(
                        if x >= y {
                            x
                        } else {
                            y
                        },
                    ),
                    (Some(x), None) => Some(x),
                    (None, Some(y)) => Some(y),
                    (None, None) => None,
                }
            },
            Instr::Ret(ri) | Instr::Halt(ri) => ri.local_index(),
        }
    }
}

fn or_zero(x: Option<u8>) -> (r: u8)
    ensures
        r == match x {
            Some(v) => v,
            None => 0u8,
        },
{
    match x {
        Some(v) => v,
        None => 0,
    }
}

/// Every operand of the instruction has an index below 64, so the
/// instruction can be packed.
pub open spec fn spec_instr_packable(i: Instr) -> bool {
    match i {
        Instr::Mov(d, s) => d < 255 && s.spec_index() < 64,
        Instr::Fun(d, _) => d < 255,
        Instr::IAdd(d, l, r) | Instr::ISub(d, l, r) | Instr::IMul(d, l, r) => d < 255
            && l.spec_index() < 64 && r.spec_index() < 64,
        Instr::ILt(l, r) => l.spec_index() < 64 && r.spec_index() < 64,
        Instr::Ret(s) | Instr::Halt(s) => s.spec_index() < 64,
        _ => true,
    }
}

/// A constant that the constant pool can hold as an immediate word.
pub open spec fn spec_const_ok(c: ConstVal) -> bool {
    match c {
        ConstVal::Int(i) => INT_MIN as int <= i < INT_END as int,
        _ => true,
    }
}

/// The immediate word a pool constant encodes to.
pub open spec fn spec_encode_const(c: ConstVal) -> int {
    match c {
        ConstVal::Int(i) => crate::value::spec_int_word(i as int),
        ConstVal::Char(ch) => (ch as int) * 4 + 2,
        ConstVal::Bool(b) => if b {
            7int
        } else {
            3int
        },
    }
}

/// Encode a pool constant as an immediate word.
pub fn encode_const(c: &ConstVal) -> (r: ValueRef)
    requires
        spec_const_ok(*c),
    ensures
        r.word == spec_encode_const(*c),
        r.word != 0 && r.word % 4 != 0,
        *c matches ConstVal::Int(i) ==> r.word % 4 == 1 && crate::value::spec_int_value(r.word)
            == i,
        *c matches ConstVal::Bool(b) ==> r.word == (if b {
            7int
        } else {
            3int
        }),
{
    match c {
        ConstVal::Int(i) => ValueRef::from_int(*i),
        ConstVal::Char(ch) => ValueRef::from_char(*ch),
        ConstVal::Bool(b) => ValueRef::from_bool(*b),
    }
}

/// A tree of assemblers mirroring the code-object tree under construction.
pub struct Assembler {
    pub code: Vec<Instr>,
    pub consts: Vec<ConstVal>,
    pub cobs: Vec<Assembler>,
    pub reg_req: u8,
}

impl Assembler {
    /// The assembler's register requirement is exactly the requirement of
    /// the code pushed so far, its instructions are packable, and its
    /// constants immediate, recursively through the children.
    pub open spec fn wf(&self) -> bool
        decreases *self,
    {
        &&& self.reg_req == spec_code_reg_req(self.code@)
        &&& forall|i: int| 0 <= i < self.code@.len() ==> spec_instr_packable(#[trigger] self.code@[i])
        &&& forall|i: int| 0 <= i < self.consts@.len() ==> spec_const_ok(#[trigger] self.consts@[i])
        &&& forall|i: int| 0 <= i < self.cobs@.len() ==> (#[trigger] self.cobs@[i]).wf()
    }

    /// A fresh, empty assembler.
    pub fn new() -> (r: Assembler)
        ensures
            r.wf(),
            r.code@.len() == 0,
            r.consts@.len() == 0,
            r.cobs@.len() == 0,
            r.reg_req == 0,
    {
        Assembler { code: Vec::new(), consts: Vec::new(), cobs: Vec::new(), reg_req: 0 }
    }

    /// Push an instruction, raising the register requirement to one past
    /// the largest register index the instruction touches.
    pub fn push_instr(&mut self, instr: Instr)
        requires
            old(self).wf(),
            spec_instr_packable(instr),
        ensures
            final(self).wf(),
            final(self).code@ == old(self).code@.push(instr),
            final(self).consts@ == old(self).consts@,
            final(self).cobs@ == old(self).cobs@,
            final(self).reg_req == spec_code_reg_req(final(self).code@),
    {
        let need = match instr.max_reg() {
            Some(m) => {
                if m < 255 {
                    m + 1
                } else {
                    255
                }
            },
            None => 0,
        };
        proof {
            assert(spec_reg_need(instr) == need) by {
                match spec_max_reg(instr) {
                    Some(m) => {
                        assert(m <= 254) by {
                            lemma_max_reg_bounded(instr);
                        }
                    },
                    None => {},
                }
            }
        }
        if need > self.reg_req {
            self.reg_req = need;
        }
        self.code.push(instr);
        proof {
            assert(self.code@.drop_last() =~= old(self).code@);
        }
    }

    /// Push a constant onto the pool.
    pub fn push_const(&mut self, c: ConstVal)
        requires
            old(self).wf(),
            spec_const_ok(c),
        ensures
            final(self).wf(),
            final(self).consts@ == old(self).consts@.push(c),
            final(self).code@ == old(self).code@,
            final(self).cobs@ == old(self).cobs@,
    {
        self.consts.push(c);
    }

    /// Push a child assembler, the code object of a nested function.
    pub fn push_child(&mut self, child: Assembler)
        requires
            old(self).wf(),
            child.wf(),
        ensures
            final(self).wf(),
            final(self).cobs@ == old(self).cobs@.push(child),
            final(self).code@ == old(self).code@,
            final(self).consts@ == old(self).consts@,
    {
        self.cobs.push(child);
    }

    /// Emit the code object: instructions packed to bytes, constants
    /// encoded as immediate words, children assembled first, and the
    /// register requirement carried over.
    pub fn assemble(&self) -> (r: CodeObject)
        requires
            self.wf(),
        ensures
            cob_matches(*self, r),
        decreases *self,
    {
        let mut code: Vec<PackedInstr> = Vec::new();
        let mut i: usize = 0;
        while i < self.code.len()
            invariant
                self.wf(),
                i <= self.code@.len(),
                code@.len() == i,
                forall|k: int|
                    0 <= k < i ==> #[trigger] code@[k] == spec_pack(self.code@[k]),
            decreases self.code@.len() - i,
        {
            let packed = pack_instr(&self.code[i]);
            code.push(packed);
            i += 1;
        }
        let mut consts: Vec<ValueRef> = Vec::new();
        let mut j: usize = 0;
        while j < self.consts.len()
            invariant
                self.wf(),
                j <= self.consts@.len(),
                consts@.len() == j,
                forall|k: int|
                    0 <= k < j ==> (#[trigger] consts@[k]).word == spec_encode_const(
                        self.consts@[k],
                    ) && consts@[k].word != 0 && consts@[k].word % 4 != 0,
            decreases self.consts@.len() - j,
        {
            let v = encode_const(&self.consts[j]);
            consts.push(v);
            j += 1;
        }
        let mut cobs: Vec<CodeObject> = Vec::new();
        let mut k: usize = 0;
        while k < self.cobs.len()
            invariant
                self.wf(),
                k <= self.cobs@.len(),
                cobs@.len() == k,
                forall|x: int| 0 <= x < k ==> cob_matches(self.cobs@[x], #[trigger] cobs@[x]),
            decreases self.cobs@.len() - k,
        {
            let child = self.cobs[k].assemble();
            cobs.push(child);
            k += 1;
        }
        CodeObject { code, consts, cobs, reg_req: self.reg_req }
    }
}

/// A packable instruction's largest register index is at most 254, so one
/// past it fits a byte.
proof fn lemma_max_reg_bounded(i: Instr)
    requires
        spec_instr_packable(i),
    ensures
        spec_max_reg(i) matches Some(m) ==> m <= 254,
{
}

/// The packed form of an unpacked instruction.
pub open spec fn spec_pack(i: Instr) -> PackedInstr {
    match i {
        Instr::Mov(d, s) => PackedInstr::Mov(d, spec_operand_byte(s) as u8),
        Instr::SvK(o) => PackedInstr::SvK(o),
        Instr::Fun(d, c) => PackedInstr::Fun(d, c),
        Instr::IAdd(d, l, r) => PackedInstr::IAdd(
            d,
            spec_operand_byte(l) as u8,
            spec_operand_byte(r) as u8,
        ),
        Instr::ISub(d, l, r) => PackedInstr::ISub(
            d,
            spec_operand_byte(l) as u8,
            spec_operand_byte(r) as u8,
        ),
        Instr::IMul(d, l, r) => PackedInstr::IMul(
            d,
            spec_operand_byte(l) as u8,
            spec_operand_byte(r) as u8,
        ),
        Instr::ILt(l, r) => PackedInstr::ILt(spec_operand_byte(l) as u8, spec_operand_byte(r) as u8),
        Instr::Br(o) => PackedInstr::Br(o),
        Instr::Call(a) => PackedInstr::Call(a),
        Instr::Ret(s) => PackedInstr::Ret(spec_operand_byte(s) as u8),
        Instr::Halt(s) => PackedInstr::Halt(spec_operand_byte(s) as u8),
    }
}

/// Pack one instruction: operands become tagged bytes.
pub fn pack_instr(i: &Instr) -> (r: PackedInstr)
    requires
        spec_instr_packable(*i),
    ensures
        r == spec_pack(*i),
{
    match *i {
        Instr::Mov(d, s) => PackedInstr::Mov(d, s.to_byte()),
        Instr::SvK(o) => PackedInstr::SvK(o),
        Instr::Fun(d, c) => PackedInstr::Fun(d, c),
        Instr::IAdd(d, l, r) => PackedInstr::IAdd(d, l.to_byte(), r.to_byte()),
        Instr::ISub(d, l, r) => PackedInstr::ISub(d, l.to_byte(), r.to_byte()),
        Instr::IMul(d, l, r) => PackedInstr::IMul(d, l.to_byte(), r.to_byte()),
        Instr::ILt(l, r) => PackedInstr::ILt(l.to_byte(), r.to_byte()),
        Instr::Br(o) => PackedInstr::Br(o),
        Instr::Call(a) => PackedInstr::Call(a),
        Instr::Ret(s) => PackedInstr::Ret(s.to_byte()),
        Instr::Halt(s) => PackedInstr::Halt(s.to_byte()),
    }
}

/// The emitted code object mirrors the assembler: packed code, immediate
/// constants, the same register requirement, and matching children.
pub open spec fn cob_matches(a: Assembler, c: CodeObject) -> bool
    decreases a,
{
    &&& c.code@.len() == a.code@.len()
    &&& forall|i: int| 0 <= i < a.code@.len() ==> #[trigger] c.code@[i] == spec_pack(a.code@[i])
    &&& c.consts@.len() == a.consts@.len()
    &&& forall|i: int|
        0 <= i < c.consts@.len() ==> (#[trigger] c.consts@[i]).word == spec_encode_const(
            a.consts@[i],
        ) && c.consts@[i].word != 0 && c.consts@[i].word % 4 != 0
    &&& c.reg_req == a.reg_req
    &&& c.reg_req == spec_code_reg_req(a.code@)
    &&& c.cobs@.len() == a.cobs@.len()
    &&& forall|i: int| 0 <= i < a.cobs@.len() ==> cob_matches(a.cobs@[i], #[trigger] c.cobs@[i])
}

} // verus!

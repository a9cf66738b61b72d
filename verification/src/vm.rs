//! The register virtual machine.
//!
//! State: the active closure, instruction pointer, frame pointer, the
//! register stack, and the managed heap. The fetch-decode-execute loop
//! runs until `halt`; a malformed code object surfaces as a bounds error,
//! an arithmetic operand that is no integer immediate as a type error, and
//! a failed closure allocation as out-of-memory. Closures live on the
//! heap: a `fun` instruction allocates one, `svk` saves the active closure
//! into the continuation frame, and `call`/`ret` read closures back from
//! the register stack.

use vstd::prelude::*;

use crate::bytecode::Operand;
use crate::interp::{Interpreter, RuntimeError, TypeIndex};
use crate::value::{spec_is_pointer, spec_ptr_addr, ValueRef, INT_END};

verus! {

/// A packed instruction: operands carried as tagged bytes.
#[derive(Clone, Copy, PartialEq, Eq, Structural)]
pub enum PackedInstr {
    Mov(u8, u8),
    SvK(u16),
    Fun(u8, u16),
    IAdd(u8, u8, u8),
    ISub(u8, u8, u8),
    IMul(u8, u8, u8),
    ILt(u8, u8),
    Br(u16),
    Call(u16),
    Ret(u8),
    Halt(u8),
}

/// An immutable code object: packed code, the constant pool, nested child
/// code objects, and the register requirement.
pub struct CodeObject {
    pub code: Vec<PackedInstr>,
    pub consts: Vec<ValueRef>,
    pub cobs: Vec<CodeObject>,
    pub reg_req: u8,
}

/// One code object flattened into the machine's table: its children named
/// by table index.
pub struct CobEntry {
    pub code: Vec<PackedInstr>,
    pub consts: Vec<ValueRef>,
    pub children: Vec<usize>,
    pub reg_req: u8,
}

/// A word a register may hold: the null word, an immediate, or a pointer
/// to a live closure object of the table.
pub open spec fn slot_ok(heap: &Interpreter, ncobs: int, w: u64) -> bool {
    w == 0 || w % 4 != 0 || heap.is_closure_obj(spec_ptr_addr(w), ncobs)
}

/// The virtual machine.
pub struct VM {
    pub heap: Interpreter,
    pub cobs: Vec<CobEntry>,
    pub cl: usize,
    pub cl_ref: ValueRef,
    pub ip: usize,
    pub fp: usize,
    pub stack: Vec<ValueRef>,
}

impl VM {
    /// The machine invariant: the heap facade invariant holds, the active
    /// code object is in the table, every child index stays in the table,
    /// every constant is an immediate, every register holds an admissible
    /// word, and the active closure is live.
    pub open spec fn inv(&self) -> bool {
        &&& self.heap.inv()
        &&& self.cl < self.cobs@.len()
        &&& forall|i: int, j: int|
            0 <= i < self.cobs@.len() && 0 <= j < self.cobs@[i].children@.len() ==> (
            #[trigger] self.cobs@[i].children@[j]) < self.cobs@.len()
        &&& forall|i: int, j: int|
            0 <= i < self.cobs@.len() && 0 <= j < self.cobs@[i].consts@.len() ==> ((
            #[trigger] self.cobs@[i].consts@[j]).word == 0 || self.cobs@[i].consts@[j].word % 4
                != 0)
        &&& forall|k: int|
            0 <= k < self.stack@.len() ==> slot_ok(
                &self.heap,
                self.cobs@.len() as int,
                (#[trigger] self.stack@[k]).word,
            )
        &&& spec_is_pointer(self.cl_ref.word)
        &&& self.heap.is_closure_obj(spec_ptr_addr(self.cl_ref.word), self.cobs@.len() as int)
        &&& crate::value::spec_int_value(
            self.heap.gen.mem@[spec_ptr_addr(self.cl_ref.word) + 2] as u64,
        ) == self.cl as int
    }

    /// Flatten a code-object tree into the table, children before their
    /// parent, and return the parent's table index.
    fn flatten_cob(c: &CodeObject, table: &mut Vec<CobEntry>) -> (r: usize)
        requires
            spec_cob_ok(*c),
        ensures
            final(table)@.len() == old(table)@.len() + spec_cob_count(*c),
            final(table)@.len() > old(table)@.len(),
            r == final(table)@.len() - 1,
            flat_matches(*c, final(table)@, r as int),
            forall|i: int|
                0 <= i < old(table)@.len() ==> #[trigger] final(table)@[i] == old(table)@[i],
            forall|i: int, j: int|
                old(table)@.len() <= i < final(table)@.len() && 0 <= j < final(table)@[i].children@.len() ==> (#[trigger] final(table)@[i].children@[j]) < i,
            forall|i: int, j: int|
                old(table)@.len() <= i < final(table)@.len() && 0 <= j < final(table)@[i].consts@.len() ==> ((#[trigger] final(table)@[i].consts@[j]).word == 0 || final(table)@[i].consts@[j].word % 4 != 0),
        decreases *c,
    {
        let mut children: Vec<usize> = Vec::new();
        let mut k: usize = 0;
        let ghost base = table@.len() as int;
        while k < c.cobs.len()
            invariant
                spec_cob_ok(*c),
                k <= c.cobs@.len(),
                children@.len() == k,
                table@.len() >= base,
                base == old(table)@.len(),
                forall|i: int| 0 <= i < base ==> #[trigger] table@[i] == old(table)@[i],
                forall|x: int| 0 <= x < k ==> (#[trigger] children@[x]) < table@.len(),
                table@.len() == base + spec_cobs_count(c.cobs@.subrange(0, k as int)),
                forall|x: int|
                    0 <= x < k ==> flat_matches(
                        #[trigger] c.cobs@[x],
                        table@,
                        children@[x] as int,
                    ),
                forall|i: int, j: int|
                    base <= i < table@.len() && 0 <= j < table@[i].children@.len() ==> (
                    #[trigger] table@[i].children@[j]) < i,
                forall|i: int, j: int|
                    base <= i < table@.len() && 0 <= j < table@[i].consts@.len() ==> ((
                    #[trigger] table@[i].consts@[j]).word == 0 || table@[i].consts@[j].word % 4
                        != 0),
            decreases c.cobs@.len() - k,
        {
            let child = &c.cobs[k];
            let ghost t_before = table@;
            proof {
                assert(spec_cob_ok(c.cobs@[k as int]));
            }
            let id = Self::flatten_cob(child, table);
            children.push(id);
            proof {
                assert(c.cobs@.subrange(0, k + 1).drop_last() =~= c.cobs@.subrange(0, k as int));
                assert(c.cobs@.subrange(0, k + 1).last() == c.cobs@[k as int]);
                assert forall|x: int| 0 <= x < k + 1 implies flat_matches(
                    #[trigger] c.cobs@[x],
                    table@,
                    children@[x] as int,
                ) by {
                    if x < k {
                        lemma_flat_matches_extend(
                            c.cobs@[x],
                            t_before,
                            table@,
                            children@[x] as int,
                        );
                    }
                }
            }
            k += 1;
        }
        proof {
            assert(c.cobs@.subrange(0, c.cobs@.len() as int) =~= c.cobs@);
        }
        let mut code: Vec<PackedInstr> = Vec::new();
        let mut i: usize = 0;
        while i < c.code.len()
            invariant
                i <= c.code@.len(),
                code@ == c.code@.subrange(0, i as int),
            decreases c.code@.len() - i,
        {
            code.push(c.code[i]);
            proof {
                assert(code@ =~= c.code@.subrange(0, i + 1));
            }
            i += 1;
        }
        let mut consts: Vec<ValueRef> = Vec::new();
        let mut j: usize = 0;
        while j < c.consts.len()
            invariant
                spec_cob_ok(*c),
                j <= c.consts@.len(),
                consts@ == c.consts@.subrange(0, j as int),
            decreases c.consts@.len() - j,
        {
            consts.push(c.consts[j]);
            proof {
                assert(consts@ =~= c.consts@.subrange(0, j + 1));
            }
            j += 1;
        }
        proof {
            assert(consts@ =~= c.consts@);
        }
        let ghost t_pre = table@;
        table.push(CobEntry { code, consts, children, reg_req: c.reg_req });
        let r = table.len() - 1;
        proof {
            assert(table@[r as int].code@ == c.code@);
            assert(table@[r as int].consts@ == c.consts@);
            assert forall|j: int| 0 <= j < c.cobs@.len() implies flat_matches(
                #[trigger] c.cobs@[j],
                table@,
                table@[r as int].children@[j] as int,
            ) by {
                lemma_flat_matches_extend(c.cobs@[j], t_pre, table@, children@[j] as int);
            }
            assert(flat_matches(*c, table@, r as int));
        }
        r
    }

    /// Create a new machine around the heap, running `fun` as the
    /// top-level code object: the table is flattened, the top-level
    /// closure allocated, and the stack sized to the top-level register
    /// requirement.
    pub fn new(mem: Interpreter, fun: CodeObject) -> (r: Result<VM, RuntimeError>)
        requires
            mem.inv(),
            spec_cob_ok(fun),
        ensures
            r matches Ok(vm) ==> {
                &&& vm.inv()
                &&& vm.ip == 0
                &&& vm.fp == 0
                &&& flat_matches(fun, vm.cobs@, vm.cl as int)
                &&& vm.cl as int == vm.cobs@.len() - 1
                &&& vm.cobs@.len() == spec_cob_count(fun)
                &&& vm.stack@.len() == vm.cobs@[vm.cl as int].reg_req
                &&& forall|k: int| 0 <= k < vm.stack@.len() ==> (#[trigger] vm.stack@[k]).word == 0
                &&& abs_state(&vm) == (SpecVm {
                    cl: vm.cl as int,
                    ip: 0,
                    fp: 0,
                    stack: Seq::new(vm.stack@.len(), |k: int| AbsVal::Imm(0)),
                })
            },
            r matches Err(e) ==> e == RuntimeError::OutOfMemory && (spec_cob_count(fun)
                > INT_END as usize || (crate::freelist::spec_find_fit(mem.gen.free.list@, 3) is None
                && mem.gen.bump + 3 > mem.gen.mem@.len())),
    {
        let mut heap = mem;
        let mut table: Vec<CobEntry> = Vec::new();
        let top = Self::flatten_cob(&fun, &mut table);
        if !(top < (INT_END as usize)) {
            return Err(RuntimeError::OutOfMemory);
        }
        let got = heap.create_closure(top);
        let cl_ref = match got {
            Some(v) => v,
            None => {
                return Err(RuntimeError::OutOfMemory);
            },
        };
        let reg_req = table[top].reg_req;
        let mut stack: Vec<ValueRef> = Vec::new();
        let mut i: usize = 0;
        while i < reg_req as usize
            invariant
                i <= reg_req as usize,
                stack@.len() == i,
                forall|k: int| 0 <= k < i ==> (#[trigger] stack@[k]).word == 0,
            decreases reg_req as int - i,
        {
            stack.push(ValueRef::null());
            i += 1;
        }
        let vm = VM { heap, cobs: table, cl: top, cl_ref, ip: 0, fp: 0, stack };
        proof {
            assert(crate::value::spec_int_value(crate::value::spec_int_word(top as int) as u64)
                == top as int);
            assert(abs_state(&vm).stack =~= Seq::new(
                vm.stack@.len(),
                |k: int| AbsVal::Imm(0),
            ));
        }
        Ok(vm)
    }

    /// Decode an operand byte against the current frame and constant pool.
    fn decode_operand(&self, b: u8) -> (r: Result<ValueRef, RuntimeError>)
        requires
            self.inv(),
        ensures
            r matches Ok(v) ==> slot_ok(&self.heap, self.cobs@.len() as int, v.word),
            b % 4 == 0 ==> r == (if self.fp + b as int / 4 < self.stack@.len() {
                Ok::<ValueRef, RuntimeError>(self.stack@[self.fp + b as int / 4])
            } else {
                Err::<ValueRef, RuntimeError>(RuntimeError::BoundsError)
            }),
            b % 4 == 1 ==> r == (if b as int / 4 < self.cobs@[self.cl as int].consts@.len() {
                Ok::<ValueRef, RuntimeError>(self.cobs@[self.cl as int].consts@[b as int / 4])
            } else {
                Err::<ValueRef, RuntimeError>(RuntimeError::BoundsError)
            }),
            b % 4 >= 2 ==> r == Err::<ValueRef, RuntimeError>(RuntimeError::BoundsError),
            match r {
                Ok(v) => spec_operand(self.cobs@, abs_state(self), b) == Ok::<AbsVal, RuntimeError>(
                    abs_of(&self.heap, v.word),
                ),
                Err(e) => spec_operand(self.cobs@, abs_state(self), b) == Err::<
                    AbsVal,
                    RuntimeError,
                >(e),
            },
    {
        proof {
            vstd::std_specs::vec::axiom_spec_len(&self.stack);
        }
        let got = Operand::from_byte(b);
        match got {
            Some(Operand::Local(li)) => {
                let ok = li as usize <= usize::MAX - self.fp && self.fp + (li as usize)
                    < self.stack.len();
                if ok {
                    Ok(self.stack[self.fp + li as usize])
                } else {
                    Err(RuntimeError::BoundsError)
                }
            },
            Some(Operand::Const(ci)) => {
                let pool = &self.cobs[self.cl].consts;
                if (ci as usize) < pool.len() {
                    Ok(pool[ci as usize])
                } else {
                    Err(RuntimeError::BoundsError)
                }
            },
            None => Err(RuntimeError::BoundsError),
        }
    }

    /// Write a register of the current frame.
    fn set_reg(&mut self, reg_index: u8, val: ValueRef) -> (r: Result<(), RuntimeError>)
        requires
            old(self).inv(),
            slot_ok(&old(self).heap, old(self).cobs@.len() as int, val.word),
        ensures
            final(self).inv(),
            final(self).heap == old(self).heap,
            final(self).cobs@ == old(self).cobs@,
            final(self).cl == old(self).cl,
            final(self).cl_ref == old(self).cl_ref,
            final(self).ip == old(self).ip,
            final(self).fp == old(self).fp,
            match r {
                Ok(()) => old(self).fp + reg_index < old(self).stack@.len() && final(self).stack@
                    == old(self).stack@.update(old(self).fp + reg_index, val),
                Err(e) => e == RuntimeError::BoundsError && !(old(self).fp + reg_index < old(
                    self,
                ).stack@.len()) && final(self).stack@ == old(self).stack@,
            },
            match r {
                Ok(()) => spec_set_reg(abs_state(old(self)), reg_index, abs_of(&old(self).heap, val.word))
                    == StepRes::Next(abs_state(final(self))),
                Err(e) => spec_set_reg(abs_state(old(self)), reg_index, abs_of(&old(self).heap, val.word))
                    == StepRes::Fail(e),
            },
    {
        proof {
            vstd::std_specs::vec::axiom_spec_len(&self.stack);
        }
        let ok = reg_index as usize <= usize::MAX - self.fp && self.fp + (reg_index as usize)
            < self.stack.len();
        if ok {
            let i = self.fp + reg_index as usize;
            let slot = &mut self.stack[i];
            *slot = val;
            proof {
                lemma_abs_update(&self.heap, old(self).stack@, i as int, val);
            }
            Ok(())
        } else {
            Err(RuntimeError::BoundsError)
        }
    }

    /// Truncate the stack to `keep` registers, then grow it to `total`,
    /// zero-filling the new registers.
    fn resize_stack(&mut self, keep: usize, total: usize)
        requires
            old(self).inv(),
        ensures
            final(self).inv(),
            final(self).heap == old(self).heap,
            final(self).cobs@ == old(self).cobs@,
            final(self).cl == old(self).cl,
            final(self).cl_ref == old(self).cl_ref,
            final(self).ip == old(self).ip,
            final(self).fp == old(self).fp,
            final(self).stack@.len() == total,
            forall|k: int|
                0 <= k < total ==> (#[trigger] final(self).stack@[k]) == (if k < keep && k < old(
                    self,
                ).stack@.len() {
                    old(self).stack@[k]
                } else {
                    ValueRef { word: 0 }
                }),
            abs_stack(&final(self).heap, final(self).stack@) == spec_resize(
                abs_stack(&old(self).heap, old(self).stack@),
                keep as int,
                total as int,
            ),
    {
        self.stack.truncate(keep);
        self.stack.truncate(total);
        while self.stack.len() < total
            invariant
                self.inv(),
                self.heap == old(self).heap,
                self.cobs@ == old(self).cobs@,
                self.cl == old(self).cl,
                self.cl_ref == old(self).cl_ref,
                self.ip == old(self).ip,
                self.fp == old(self).fp,
                self.stack@.len() <= total,
                self.stack@.len() >= keep || self.stack@.len() >= old(self).stack@.len()
                    || self.stack@.len() >= total,
                forall|k: int|
                    0 <= k < self.stack@.len() ==> (#[trigger] self.stack@[k]) == (if k < keep && k
                        < old(self).stack@.len() {
                        old(self).stack@[k]
                    } else {
                        ValueRef { word: 0 }
                    }),
            decreases total - self.stack@.len(),
        {
            self.stack.push(ValueRef::null());
        }
        proof {
            assert(self.stack@.len() == total);
            lemma_abs_resize(
                &self.heap,
                old(self).stack@,
                self.stack@,
                keep as int,
                total as int,
            );
        }
    }

    /// Read a saved stack slot as a non-negative machine integer.
    fn load_usize(&self, i: usize) -> (r: Result<usize, RuntimeError>)
        requires
            self.inv(),
            i < self.stack@.len(),
        ensures
            ({
                let w = self.stack@[i as int].word;
                match r {
                    Ok(x) => crate::value::spec_is_int(w) && x == crate::value::spec_int_value(w)
                        && 0 <= x <= usize::MAX,
                    Err(e) => e == RuntimeError::TypeError && (!crate::value::spec_is_int(w)
                        || crate::value::spec_int_value(w) < 0 || crate::value::spec_int_value(w)
                        > usize::MAX),
                }
            }),
    {
        let v = self.stack[i];
        match v.as_int() {
            Some(x) => {
                if x >= 0 && (x as u64) <= (usize::MAX as u64) {
                    Ok(x as usize)
                } else {
                    Err(RuntimeError::TypeError)
                }
            },
            None => Err(RuntimeError::TypeError),
        }
    }
}

impl VM {
    /// Execute one instruction. `Ok(Some(v))` is a halt with value `v`;
    /// `Ok(None)` continues. The result refines the abstract machine: a
    /// continuing step lands in the state `spec_step` names, a halt yields
    /// the value it names, and an error is the failure it names - except
    /// out-of-memory, which only a failed closure allocation (or the run
    /// budget) produces.
    #[verifier::rlimit(100)]
    #[verifier::spinoff_prover]
    fn step(&mut self) -> (r: Result<Option<ValueRef>, RuntimeError>)
        requires
            old(self).inv(),
        ensures
            final(self).inv(),
            final(self).cobs@ == old(self).cobs@,
            match r {
                Ok(None) => spec_step(old(self).cobs@, abs_state(old(self))) == StepRes::Next(
                    abs_state(final(self)),
                ),
                Ok(Some(v)) => spec_step(old(self).cobs@, abs_state(old(self))) == StepRes::Halt(
                    abs_of(&final(self).heap, v.word),
                ) && slot_ok(&final(self).heap, final(self).cobs@.len() as int, v.word),
                Err(e) => (e == RuntimeError::OutOfMemory && crate::freelist::spec_find_fit(
                    final(self).heap.gen.free.list@,
                    3,
                ) is None && final(self).heap.gen.bump + 3 > final(self).heap.gen.mem@.len())
                    || spec_step(old(self).cobs@, abs_state(old(self))) == StepRes::Fail(e),
            },
    {
        let ghost pre = abs_state(old(self));
        let ghost cobs0 = self.cobs@;
        let instr = {
            let code = &self.cobs[self.cl].code;
            if self.ip >= code.len() {
                proof {
                    assert(spec_step(cobs0, pre) == StepRes::Fail(RuntimeError::BoundsError));
                }
                return Err(RuntimeError::BoundsError);
            }
            code[self.ip]
        };
        self.ip = self.ip + 1;
        let ghost mid = abs_state(self);
        proof {
            assert(mid == SpecVm { ip: pre.ip + 1, ..pre });
            assert(cobs0[pre.cl].code@[pre.ip] == instr);
        }
        match instr {
            PackedInstr::Mov(di, si) => {
                proof {
                    assert(spec_step(cobs0, pre) == (match spec_operand(cobs0, mid, si) {
                        Err(e) => StepRes::Fail(e),
                        Ok(v) => spec_set_reg(mid, di, v),
                    }));
                }
                let v = match self.decode_operand(si) {
                    Ok(v) => v,
                    Err(e) => return Err(e),
                };
                match self.set_reg(di, v) {
                    Ok(()) => Ok(None),
                    Err(e) => Err(e),
                }
            },
            PackedInstr::SvK(off) => {
                proof {
                    assert(spec_step(cobs0, pre) == spec_svk(mid, off));
                }
                self.exec_svk(off)
            },
            PackedInstr::Fun(di, ci) => {
                proof {
                    assert(spec_step(cobs0, pre) == spec_fun(cobs0, mid, di, ci));
                }
                self.exec_fun(di, ci)
            },
            PackedInstr::IAdd(di, li, ri) => {
                proof {
                    assert(spec_step(cobs0, pre) == spec_arith(cobs0, mid, di, li, ri, 0));
                }
                self.arith(di, li, ri, 0)
            },
            PackedInstr::ISub(di, li, ri) => {
                proof {
                    assert(spec_step(cobs0, pre) == spec_arith(cobs0, mid, di, li, ri, 1));
                }
                self.arith(di, li, ri, 1)
            },
            PackedInstr::IMul(di, li, ri) => {
                proof {
                    assert(spec_step(cobs0, pre) == spec_arith(cobs0, mid, di, li, ri, 2));
                }
                self.arith(di, li, ri, 2)
            },
            PackedInstr::ILt(li, ri) => {
                let l = match self.int_operand(li) {
                    Ok(v) => v,
                    Err(e) => return Err(e),
                };
                let r = match self.int_operand(ri) {
                    Ok(v) => v,
                    Err(e) => return Err(e),
                };
                if l < r {
                    if self.ip == usize::MAX {
                        return Err(RuntimeError::BoundsError);
                    }
                    self.ip = self.ip + 1;
                }
                Ok(None)
            },
            PackedInstr::Br(offset) => {
                if offset as usize > usize::MAX - self.ip {
                    return Err(RuntimeError::BoundsError);
                }
                self.ip = self.ip + offset as usize;
                Ok(None)
            },
            PackedInstr::Call(argc) => {
                proof {
                    assert(spec_step(cobs0, pre) == spec_call(cobs0, mid, argc));
                }
                self.exec_call(argc)
            },
            PackedInstr::Ret(vi) => {
                proof {
                    assert(spec_step(cobs0, pre) == spec_ret(cobs0, mid, vi));
                }
                self.exec_ret(vi)
            },
            PackedInstr::Halt(ri) => {
                match self.decode_operand(ri) {
                    Ok(v) => Ok(Some(v)),
                    Err(e) => Err(e),
                }
            },
        }
    }

    /// Reserve a continuation frame: caller frame pointer, resume address
    /// and active closure at `newfp - 3 .. newfp - 1`, then enter the new
    /// frame.
    #[verifier::rlimit(100)]
    #[verifier::spinoff_prover]
    fn exec_svk(&mut self, off: u16) -> (r: Result<Option<ValueRef>, RuntimeError>)
        requires
            old(self).inv(),
        ensures
            final(self).inv(),
            final(self).cobs@ == old(self).cobs@,
            match r {
                Ok(v) => v is None && spec_svk(abs_state(old(self)), off) == StepRes::Next(
                    abs_state(final(self)),
                ),
                Err(e) => spec_svk(abs_state(old(self)), off) == StepRes::Fail(e),
            },
    {
        proof {
            vstd::std_specs::vec::axiom_spec_len(&self.stack);
        }
        if off as usize > usize::MAX - self.fp {
            return Err(RuntimeError::BoundsError);
        }
        let newfp = self.fp + off as usize;
        if newfp < 3 || newfp > self.stack.len() {
            return Err(RuntimeError::BoundsError);
        }
        if self.fp >= INT_END as usize || self.ip >= (INT_END as usize) - 1 {
            return Err(RuntimeError::BoundsError);
        }
        let saved_fp = ValueRef::from_int(self.fp as i64);
        let saved_ip = ValueRef::from_int((self.ip + 1) as i64);
        let cl_ref = self.cl_ref;
        let ghost st0 = self.stack@;
        let s1 = &mut self.stack[newfp - 3];
        *s1 = saved_fp;
        let ghost st1 = self.stack@;
        let s2 = &mut self.stack[newfp - 2];
        *s2 = saved_ip;
        let ghost st2 = self.stack@;
        let s3 = &mut self.stack[newfp - 1];
        *s3 = cl_ref;
        proof {
            lemma_abs_update(&self.heap, st0, newfp - 3, saved_fp);
            lemma_abs_update(&self.heap, st1, newfp - 2, saved_ip);
            lemma_abs_update(&self.heap, st2, newfp - 1, cl_ref);
            assert(abs_of(&self.heap, saved_fp.word) == AbsVal::Imm(
                crate::value::spec_int_word(old(self).fp as int) as u64,
            ));
            assert(abs_of(&self.heap, saved_ip.word) == AbsVal::Imm(
                crate::value::spec_int_word(old(self).ip + 1) as u64,
            ));
            assert(abs_of(&self.heap, cl_ref.word) == AbsVal::Clo(old(self).cl as int));
        }
        self.fp = newfp;
        Ok(None)
    }

    /// Collect garbage with the register stack and the active closure as
    /// the roots: every closure a register names survives, and the
    /// machine's abstraction is untouched.
    #[verifier::rlimit(100)]
    #[verifier::spinoff_prover]
    fn collect_registers(&mut self)
        requires
            old(self).inv(),
        ensures
            final(self).inv(),
            final(self).cobs@ == old(self).cobs@,
            final(self).cl == old(self).cl,
            final(self).cl_ref == old(self).cl_ref,
            final(self).ip == old(self).ip,
            final(self).fp == old(self).fp,
            final(self).stack@ == old(self).stack@,
            final(self).heap.gen.mem@ == old(self).heap.gen.mem@,
            final(self).heap.types == old(self).heap.types,
            abs_state(final(self)) == abs_state(old(self)),
    {
        let ghost ncobs = self.cobs@.len() as int;
        self.stack.push(self.cl_ref);
        let ghost rootvec = self.stack@;
        proof {
            assert forall|i: int|
                0 <= i < rootvec.len() && spec_is_pointer(
                    (#[trigger] rootvec[i]).word,
                ) implies self.heap.gen.is_obj(spec_ptr_addr(rootvec[i].word)) by {
                if i < rootvec.len() - 1 {
                    assert(slot_ok(&self.heap, ncobs, old(self).stack@[i].word));
                }
            }
        }
        let ghost pre_heap = self.heap;
        let stack_ref = &mut self.stack;
        self.heap.collect(stack_ref);
        proof {
            assert(self.stack@ == rootvec);
            let rset = crate::heap::spec_root_addrs(rootvec + pre_heap.types.entries@);
            // Every rooted closure survives: its address is in the root
            // set, hence reachable, and memory is untouched.
            assert forall|k: int|
                0 <= k < rootvec.len() && spec_is_pointer(
                    (#[trigger] rootvec[k]).word,
                ) implies self.heap.is_closure_obj(spec_ptr_addr(rootvec[k].word), ncobs) by {
                let w = rootvec[k].word;
                let a = spec_ptr_addr(w);
                assert((rootvec + pre_heap.types.entries@)[k] == rootvec[k]);
                assert(rset.contains(a));
                pre_heap.gen.lemma_reached_root(rset, a);
                if k < rootvec.len() - 1 {
                    assert(slot_ok(&pre_heap, ncobs, w));
                } else {
                    assert(rootvec[k] == old(self).cl_ref);
                }
                assert(pre_heap.is_closure_obj(a, ncobs));
                assert(self.heap.gen.is_obj(a) && self.heap.gen.len_of(a) == pre_heap.gen.len_of(
                    a,
                ));
            }
        }
        let popped = self.stack.pop();
        proof {
            assert(self.stack@ == old(self).stack@);
            assert forall|k: int| 0 <= k < self.stack@.len() implies slot_ok(
                &self.heap,
                ncobs,
                (#[trigger] self.stack@[k]).word,
            ) by {
                assert(rootvec[k] == self.stack@[k]);
            }
            assert(rootvec[rootvec.len() - 1] == self.cl_ref);
            lemma_abs_same_mem(&pre_heap, &self.heap, self.stack@);
        }
    }

    /// Allocate a closure over code object `cid`, collecting with the
    /// registers as roots and retrying once on failure. The machine's
    /// abstraction is untouched either way.
    #[verifier::rlimit(100)]
    #[verifier::spinoff_prover]
    fn alloc_closure_retry(&mut self, cid: usize) -> (r: Option<ValueRef>)
        requires
            old(self).inv(),
            cid < INT_END as int,
            cid < old(self).cobs@.len(),
        ensures
            final(self).inv(),
            final(self).cobs@ == old(self).cobs@,
            final(self).cl == old(self).cl,
            final(self).cl_ref == old(self).cl_ref,
            final(self).ip == old(self).ip,
            final(self).fp == old(self).fp,
            final(self).stack@ == old(self).stack@,
            abs_state(final(self)) == abs_state(old(self)),
            r matches Some(v) ==> spec_is_pointer(v.word) && slot_ok(
                &final(self).heap,
                final(self).cobs@.len() as int,
                v.word,
            ) && abs_of(&final(self).heap, v.word) == AbsVal::Clo(cid as int),
            r is None ==> crate::freelist::spec_find_fit(final(self).heap.gen.free.list@, 3)
                is None && final(self).heap.gen.bump + 3 > final(self).heap.gen.mem@.len(),
    {
        let ghost ncobs = self.cobs@.len() as int;
        let ghost h0 = self.heap;
        let mut made = self.heap.create_closure(cid);
        let ghost mut hpre = h0;
        if made.is_none() {
            proof {
                // The failed attempt left every heap view unchanged, so
                // the machine invariant still holds.
                lemma_same_views_closures(&h0, &self.heap, ncobs);
                assert forall|k: int| 0 <= k < self.stack@.len() implies slot_ok(
                    &self.heap,
                    ncobs,
                    (#[trigger] self.stack@[k]).word,
                ) by {
                    assert(slot_ok(&h0, ncobs, self.stack@[k].word));
                }
                lemma_abs_same_mem(&h0, &self.heap, self.stack@);
            }
            self.collect_registers();
            proof {
                hpre = self.heap;
            }
            made = self.heap.create_closure(cid);
        }
        match made {
            Some(v) => {
                proof {
                    lemma_slots_stable(&hpre, &self.heap, ncobs, self.stack@);
                    assert(crate::value::spec_int_value(
                        crate::value::spec_int_word(cid as int) as u64,
                    ) == cid as int);
                    assert(self.heap.is_closure_obj(spec_ptr_addr(v.word), ncobs));
                    assert(abs_of(&self.heap, v.word) == AbsVal::Clo(cid as int));
                    assert(abs_stack(&self.heap, self.stack@) == abs_stack(&hpre, self.stack@));
                    assert(abs_stack(&hpre, self.stack@) == abs_stack(
                        &old(self).heap,
                        self.stack@,
                    ));
                }
                Some(v)
            },
            None => {
                proof {
                    lemma_same_views_closures(&hpre, &self.heap, ncobs);
                    assert forall|k: int| 0 <= k < self.stack@.len() implies slot_ok(
                        &self.heap,
                        ncobs,
                        (#[trigger] self.stack@[k]).word,
                    ) by {
                        assert(slot_ok(&hpre, ncobs, self.stack@[k].word));
                    }
                    lemma_abs_same_mem(&hpre, &self.heap, self.stack@);
                }
                None
            },
        }
    }

    /// Allocate a closure over child `ci` of the active code object into
    /// the destination register. A failed allocation collects with the
    /// registers as roots and retries exactly once; a second failure is
    /// out-of-memory.
    #[verifier::rlimit(100)]
    #[verifier::spinoff_prover]
    fn exec_fun(&mut self, di: u8, ci: u16) -> (r: Result<Option<ValueRef>, RuntimeError>)
        requires
            old(self).inv(),
        ensures
            final(self).inv(),
            final(self).cobs@ == old(self).cobs@,
            match r {
                Ok(v) => v is None && spec_fun(old(self).cobs@, abs_state(old(self)), di, ci)
                    == StepRes::Next(abs_state(final(self))),
                Err(e) => (e == RuntimeError::OutOfMemory && crate::freelist::spec_find_fit(
                    final(self).heap.gen.free.list@,
                    3,
                ) is None && final(self).heap.gen.bump + 3 > final(self).heap.gen.mem@.len())
                    || spec_fun(old(self).cobs@, abs_state(old(self)), di, ci) == StepRes::Fail(e),
            },
    {
        let cid = {
            let children = &self.cobs[self.cl].children;
            if ci as usize >= children.len() {
                return Err(RuntimeError::BoundsError);
            }
            children[ci as usize]
        };
        if !(cid < (INT_END as usize)) {
            return Err(RuntimeError::BoundsError);
        }
        let made = self.alloc_closure_retry(cid);
        let cl = match made {
            Some(v) => v,
            None => {
                return Err(RuntimeError::OutOfMemory);
            },
        };
        match self.set_reg(di, cl) {
            Ok(()) => Ok(None),
            Err(e) => Err(e),
        }
    }

    /// The call protocol: enter the closure at `fp`, keep the callee and
    /// arguments, resize the stack to the callee's register requirement.
    #[verifier::rlimit(100)]
    #[verifier::spinoff_prover]
    fn exec_call(&mut self, argc: u16) -> (r: Result<Option<ValueRef>, RuntimeError>)
        requires
            old(self).inv(),
        ensures
            final(self).inv(),
            final(self).cobs@ == old(self).cobs@,
            match r {
                Ok(v) => v is None && spec_call(old(self).cobs@, abs_state(old(self)), argc)
                    == StepRes::Next(abs_state(final(self))),
                Err(e) => spec_call(old(self).cobs@, abs_state(old(self)), argc) == StepRes::Fail(
                    e,
                ),
            },
    {
        proof {
            vstd::std_specs::vec::axiom_spec_len(&self.stack);
        }
        if self.fp >= self.stack.len() {
            return Err(RuntimeError::BoundsError);
        }
        let callee = self.stack[self.fp];
        if !callee.is_pointer() {
            return Err(RuntimeError::TypeError);
        }
        let a = (callee.word / 4) as usize;
        proof {
            assert(slot_ok(&self.heap, self.cobs@.len() as int, callee.word));
            assert(self.heap.is_closure_obj(a as int, self.cobs@.len() as int));
            let i = self.heap.gen.idx_of(a as int);
            self.heap.gen.lemma_at(i);
            assert(self.heap.gen.objects@[i].addr + self.heap.gen.objects@[i].len
                <= self.heap.gen.bump);
        }
        let cw = self.heap.gen.load(a + 2);
        let cid = match (ValueRef { word: cw }).as_int() {
            Some(x) => x,
            None => {
                return Err(RuntimeError::TypeError);
            },
        };
        proof {
            vstd::std_specs::vec::axiom_spec_len(&self.cobs);
            assert(crate::value::spec_is_int(cw));
            assert(cid == crate::value::spec_int_value(cw));
            assert(0 <= cid < self.cobs@.len());
            assert(abs_of(&self.heap, callee.word) == AbsVal::Clo(cid as int));
        }
        self.cl = cid as usize;
        self.cl_ref = callee;
        self.ip = 0;
        if argc as usize > usize::MAX - self.fp {
            return Err(RuntimeError::BoundsError);
        }
        let keep = self.fp + argc as usize;
        let reg_req = self.cobs[self.cl].reg_req;
        if reg_req as usize > usize::MAX - self.fp {
            return Err(RuntimeError::BoundsError);
        }
        let total = self.fp + reg_req as usize;
        self.resize_stack(keep, total);
        Ok(None)
    }

    /// The return protocol: restore the continuation saved by `svk`, land
    /// the decoded operand in the caller's return slot, and resize the
    /// stack to the caller's register requirement.
    #[verifier::rlimit(100)]
    #[verifier::spinoff_prover]
    fn exec_ret(&mut self, vi: u8) -> (r: Result<Option<ValueRef>, RuntimeError>)
        requires
            old(self).inv(),
        ensures
            final(self).inv(),
            final(self).cobs@ == old(self).cobs@,
            match r {
                Ok(v) => v is None && spec_ret(old(self).cobs@, abs_state(old(self)), vi)
                    == StepRes::Next(abs_state(final(self))),
                Err(e) => spec_ret(old(self).cobs@, abs_state(old(self)), vi) == StepRes::Fail(e),
            },
    {
        proof {
            vstd::std_specs::vec::axiom_spec_len(&self.stack);
        }
        if self.fp < 3 || self.fp > self.stack.len() {
            return Err(RuntimeError::BoundsError);
        }
        let oldfp = self.fp;
        let newfp = match self.load_usize(oldfp - 3) {
            Ok(v) => v,
            Err(e) => return Err(e),
        };
        let ret_ip = match self.load_usize(oldfp - 2) {
            Ok(v) => v,
            Err(e) => return Err(e),
        };
        let saved_cl = self.stack[oldfp - 1];
        if !saved_cl.is_pointer() {
            return Err(RuntimeError::TypeError);
        }
        let val = match self.decode_operand(vi) {
            Ok(v) => v,
            Err(e) => return Err(e),
        };
        let a = (saved_cl.word / 4) as usize;
        proof {
            assert(slot_ok(&self.heap, self.cobs@.len() as int, saved_cl.word));
            assert(self.heap.is_closure_obj(a as int, self.cobs@.len() as int));
            let i = self.heap.gen.idx_of(a as int);
            self.heap.gen.lemma_at(i);
            assert(self.heap.gen.objects@[i].addr + self.heap.gen.objects@[i].len
                <= self.heap.gen.bump);
        }
        let cw = self.heap.gen.load(a + 2);
        let cid = match (ValueRef { word: cw }).as_int() {
            Some(x) => x,
            None => {
                return Err(RuntimeError::TypeError);
            },
        };
        proof {
            vstd::std_specs::vec::axiom_spec_len(&self.cobs);
            assert(crate::value::spec_is_int(cw));
            assert(cid == crate::value::spec_int_value(cw));
            assert(0 <= cid < self.cobs@.len());
            assert(abs_of(&self.heap, saved_cl.word) == AbsVal::Clo(cid as int));
        }
        let ghost st0 = self.stack@;
        let s1 = &mut self.stack[oldfp - 3];
        *s1 = val;
        proof {
            lemma_abs_update(&self.heap, st0, oldfp - 3, val);
        }
        self.fp = newfp;
        self.ip = ret_ip;
        self.cl = cid as usize;
        self.cl_ref = saved_cl;
        let keep = oldfp - 2;
        let reg_req = self.cobs[self.cl].reg_req;
        if reg_req as usize > usize::MAX - self.fp {
            return Err(RuntimeError::BoundsError);
        }
        let total = self.fp + reg_req as usize;
        self.resize_stack(keep, total);
        Ok(None)
    }

    /// Integer arithmetic over two operands: a type error unless both are
    /// integer immediates and the result stays in the immediate range.
    #[verifier::rlimit(100)]
    #[verifier::spinoff_prover]
    fn arith(&mut self, di: u8, li: u8, ri: u8, op: u8) -> (r: Result<
        Option<ValueRef>,
        RuntimeError,
    >)
        requires
            old(self).inv(),
        ensures
            final(self).inv(),
            final(self).cobs@ == old(self).cobs@,
            match r {
                Ok(v) => v is None && spec_arith(
                    old(self).cobs@,
                    abs_state(old(self)),
                    di,
                    li,
                    ri,
                    op as int,
                ) == StepRes::Next(abs_state(final(self))),
                Err(e) => spec_arith(old(self).cobs@, abs_state(old(self)), di, li, ri, op as int)
                    == StepRes::Fail(e),
            },
    {
        let l = match self.int_operand(li) {
            Ok(v) => v,
            Err(e) => return Err(e),
        };
        let rr = match self.int_operand(ri) {
            Ok(v) => v,
            Err(e) => return Err(e),
        };
        proof {
            assert(-0x10000000000000000000000000000000 <= l as int * rr as int <= 0x10000000000000000000000000000000) by (nonlinear_arith)
                requires
                    -0x2000000000000000 <= l as int <= 0x2000000000000000,
                    -0x2000000000000000 <= rr as int <= 0x2000000000000000,
            ;
        }
        let wide: i128 = if op == 0 {
            l as i128 + rr as i128
        } else if op == 1 {
            l as i128 - rr as i128
        } else {
            l as i128 * rr as i128
        };
        if wide < INT_MIN_WIDE || wide >= INT_END_WIDE {
            return Err(RuntimeError::TypeError);
        }
        let v = ValueRef::from_int(wide as i64);
        match self.set_reg(di, v) {
            Ok(()) => Ok(None),
            Err(e) => Err(e),
        }
    }

    /// Decode an operand that must be an integer immediate.
    fn int_operand(&self, b: u8) -> (r: Result<i64, RuntimeError>)
        requires
            self.inv(),
        ensures
            r matches Ok(i) ==> crate::value::INT_MIN as int <= i < INT_END as int,
            match r {
                Ok(i) => spec_int_operand(self.cobs@, abs_state(self), b) == Ok::<
                    int,
                    RuntimeError,
                >(i as int),
                Err(e) => spec_int_operand(self.cobs@, abs_state(self), b) == Err::<
                    int,
                    RuntimeError,
                >(e),
            },
    {
        let v = match self.decode_operand(b) {
            Ok(v) => v,
            Err(e) => return Err(e),
        };
        match v.as_int() {
            Some(i) => Ok(i),
            None => Err(RuntimeError::TypeError),
        }
    }

    /// Start the machine: fetch, decode and execute until `halt` or an
    /// error, refining the abstract machine's trace. `Ok(v)` means the
    /// abstract machine halts after some number of steps with the value
    /// `v` abstracts to; an error other than out-of-memory means it fails
    /// so; out-of-memory also covers a failed closure allocation and the
    /// exhaustion of the step budget, the machine limit of the host.
    pub fn run(&mut self) -> (r: Result<ValueRef, RuntimeError>)
        requires
            old(self).inv(),
        ensures
            final(self).inv(),
            final(self).cobs@ == old(self).cobs@,
            match r {
                Ok(v) => slot_ok(&final(self).heap, final(self).cobs@.len() as int, v.word)
                    && exists|n: nat|
                    spec_run(old(self).cobs@, abs_state(old(self)), n) == StepRes::Halt(
                        abs_of(&final(self).heap, v.word),
                    ),
                Err(e) => (e == RuntimeError::OutOfMemory && ((
                crate::freelist::spec_find_fit(final(self).heap.gen.free.list@, 3) is None && final(self).heap.gen.bump + 3 > final(self).heap.gen.mem@.len()) || (exists|s: SpecVm|
                    spec_run(old(self).cobs@, abs_state(old(self)), usize::MAX as nat)
                        == StepRes::Next(s)))) || exists|n: nat|
                    spec_run(old(self).cobs@, abs_state(old(self)), n) == StepRes::Fail(e),
            },
    {
        let ghost cobs0 = self.cobs@;
        let ghost s0 = abs_state(old(self));
        let ghost mut steps: nat = 0nat;
        let mut fuel: usize = usize::MAX;
        while fuel > 0
            invariant
                self.inv(),
                cobs0 == old(self).cobs@,
                s0 == abs_state(old(self)),
                self.cobs@ == cobs0,
                steps + fuel == usize::MAX as int,
                spec_run(cobs0, s0, steps) == StepRes::Next(abs_state(self)),
            decreases fuel,
        {
            let ghost cur = abs_state(self);
            let stepped = self.step();
            proof {
                lemma_run_extend(cobs0, s0, cur, steps);
            }
            match stepped {
                Ok(Some(v)) => {
                    proof {
                        assert(spec_run(cobs0, s0, steps + 1) == StepRes::Halt(
                            abs_of(&self.heap, v.word),
                        ));
                    }
                    return Ok(v);
                },
                Ok(None) => {
                    proof {
                        steps = steps + 1;
                    }
                },
                Err(e) => {
                    proof {
                        if e != RuntimeError::OutOfMemory {
                            assert(spec_run(cobs0, s0, steps + 1) == StepRes::Fail(e));
                        }
                    }
                    return Err(e);
                },
            }
            fuel = fuel - 1;
        }
        proof {
            assert(steps == usize::MAX as nat);
            assert(spec_run(cobs0, s0, usize::MAX as nat) == StepRes::Next(abs_state(self)));
        }
        Err(RuntimeError::OutOfMemory)
    }
}

/// The lowest representable immediate, widened.
pub const INT_MIN_WIDE: i128 = -2305843009213693952;

/// One past the highest representable immediate, widened.
pub const INT_END_WIDE: i128 = 2305843009213693952;

/// A heap whose memory, object table and registry views are unchanged
/// keeps every closure object.
proof fn lemma_same_views_closures(pre: &Interpreter, post: &Interpreter, ncobs: int)
    requires
        pre.inv(),
        post.inv(),
        post.gen.mem@ == pre.gen.mem@,
        post.gen.objects@ == pre.gen.objects@,
        post.types == pre.types,
    ensures
        forall|w: u64|
            spec_is_pointer(w) && pre.is_closure_obj(spec_ptr_addr(w), ncobs)
                ==> post.is_closure_obj(spec_ptr_addr(w), ncobs),
{
    assert forall|w: u64|
        spec_is_pointer(w) && pre.is_closure_obj(spec_ptr_addr(w), ncobs) implies
        post.is_closure_obj(spec_ptr_addr(w), ncobs) by {
        let a = spec_ptr_addr(w);
        let i = pre.gen.idx_of(a);
        pre.gen.lemma_at(i);
        post.gen.lemma_at(i);
    }
}

/// Creating a closure leaves every admissible register word admissible and
/// every abstraction intact: old closure objects survive with their
/// payloads.
proof fn lemma_slots_stable(
    pre: &Interpreter,
    post: &Interpreter,
    ncobs: int,
    stack: Seq<ValueRef>,
)
    requires
        pre.inv(),
        post.inv(),
        post.types == pre.types,
        forall|x: int|
            pre.gen.is_obj(x) ==> post.gen.is_obj(x) && post.gen.len_of(x) == pre.gen.len_of(x),
        forall|i: int, k: int|
            0 <= i < pre.gen.objects@.len() && 0 <= k < pre.gen.objects@[i].len ==> post.gen.mem@[
                #[trigger] (pre.gen.objects@[i].addr + k)] == pre.gen.mem@[pre.gen.objects@[i].addr
                + k],
        forall|k: int| 0 <= k < stack.len() ==> slot_ok(pre, ncobs, (#[trigger] stack[k]).word),
    ensures
        forall|k: int| 0 <= k < stack.len() ==> slot_ok(post, ncobs, (#[trigger] stack[k]).word),
        forall|w: u64| spec_is_pointer(w) && pre.is_closure_obj(spec_ptr_addr(w), ncobs)
            ==> post.is_closure_obj(spec_ptr_addr(w), ncobs),
        forall|w: u64| spec_is_pointer(w) && pre.is_closure_obj(spec_ptr_addr(w), ncobs)
            ==> post.gen.mem@[spec_ptr_addr(w) + 2] == pre.gen.mem@[spec_ptr_addr(w) + 2],
        abs_stack(post, stack) == abs_stack(pre, stack),
{
    assert forall|w: u64|
        spec_is_pointer(w) && pre.is_closure_obj(spec_ptr_addr(w), ncobs) implies
        post.is_closure_obj(spec_ptr_addr(w), ncobs) && post.gen.mem@[spec_ptr_addr(w) + 2]
            == pre.gen.mem@[spec_ptr_addr(w) + 2] by {
        let a = spec_ptr_addr(w);
        let i = pre.gen.idx_of(a);
        pre.gen.lemma_at(i);
        assert(post.gen.mem@[pre.gen.objects@[i].addr + 1] == pre.gen.mem@[pre.gen.objects@[i].addr
            + 1]);
        assert(post.gen.mem@[pre.gen.objects@[i].addr + 2] == pre.gen.mem@[pre.gen.objects@[i].addr
            + 2]);
    }
    assert forall|k: int| 0 <= k < stack.len() implies slot_ok(
        post,
        ncobs,
        (#[trigger] stack[k]).word,
    ) by {
        let w = stack[k].word;
        if w != 0 && w % 4 == 0 {
            assert(spec_is_pointer(w));
        }
    }
    assert forall|k: int| 0 <= k < stack.len() implies abs_of(post, (#[trigger] stack[k]).word)
        == abs_of(pre, stack[k].word) by {
        let w = stack[k].word;
        if spec_is_pointer(w) {
            assert(slot_ok(pre, ncobs, w));
            assert(post.gen.mem@[spec_ptr_addr(w) + 2] == pre.gen.mem@[spec_ptr_addr(w) + 2]);
        }
    }
    assert(abs_stack(post, stack) =~= abs_stack(pre, stack));
}

/// Every constant of the tree is an immediate word, recursively.
pub open spec fn spec_cob_ok(c: CodeObject) -> bool
    decreases c,
{
    &&& forall|i: int|
        0 <= i < c.consts@.len() ==> ((#[trigger] c.consts@[i]).word == 0 || c.consts@[i].word % 4
            != 0)
    &&& forall|i: int| 0 <= i < c.cobs@.len() ==> spec_cob_ok(#[trigger] c.cobs@[i])
}

/// How many code objects a tree holds.
pub open spec fn spec_cob_count(c: CodeObject) -> int
    decreases c,
{
    1 + spec_cobs_count(c.cobs@)
}

/// How many code objects a forest holds.
pub open spec fn spec_cobs_count(s: Seq<CodeObject>) -> int
    decreases s,
{
    if s.len() == 0 {
        0
    } else {
        spec_cobs_count(s.drop_last()) + spec_cob_count(s.last())
    }
}

/// The flattened table carries the tree rooted at entry `id`: the entry's
/// code, constants and register requirement are the tree's, and each child
/// index leads to the matching subtree.
pub open spec fn flat_matches(c: CodeObject, t: Seq<CobEntry>, id: int) -> bool
    decreases c,
{
    &&& 0 <= id < t.len()
    &&& t[id].code@ == c.code@
    &&& t[id].consts@ == c.consts@
    &&& t[id].reg_req == c.reg_req
    &&& t[id].children@.len() == c.cobs@.len()
    &&& forall|j: int|
        0 <= j < c.cobs@.len() ==> flat_matches(
            #[trigger] c.cobs@[j],
            t,
            t[id].children@[j] as int,
        )
}

/// Extending the table with new entries keeps every existing match.
proof fn lemma_flat_matches_extend(c: CodeObject, t1: Seq<CobEntry>, t2: Seq<CobEntry>, id: int)
    requires
        flat_matches(c, t1, id),
        t2.len() >= t1.len(),
        forall|i: int| 0 <= i < t1.len() ==> t2[i] == t1[i],
    ensures
        flat_matches(c, t2, id),
    decreases c,
{
    assert forall|j: int| 0 <= j < c.cobs@.len() implies flat_matches(
        #[trigger] c.cobs@[j],
        t2,
        t1[id].children@[j] as int,
    ) by {
        lemma_flat_matches_extend(c.cobs@[j], t1, t2, t1[id].children@[j] as int);
    }
}

/// A machine word, abstracted for the specification: the null word and the
/// immediates carried literally, a closure by the index of its code object.
pub enum AbsVal {
    Imm(u64),
    Clo(int),
}

/// The abstract machine state: the active code object, instruction and
/// frame pointers, and the register stack.
pub struct SpecVm {
    pub cl: int,
    pub ip: int,
    pub fp: int,
    pub stack: Seq<AbsVal>,
}

/// What one step of the abstract machine does: continues in a new state,
/// halts with a value, or fails with a runtime error.
pub enum StepRes {
    Next(SpecVm),
    Halt(AbsVal),
    Fail(RuntimeError),
}

/// The abstraction of a machine word: a pointer stands for the code-object
/// index its closure carries; everything else stands for itself.
pub open spec fn abs_of(heap: &Interpreter, w: u64) -> AbsVal {
    if spec_is_pointer(w) {
        AbsVal::Clo(crate::value::spec_int_value(heap.gen.mem@[spec_ptr_addr(w) + 2] as u64))
    } else {
        AbsVal::Imm(w)
    }
}

/// The abstraction of the register stack.
pub open spec fn abs_stack(heap: &Interpreter, stack: Seq<ValueRef>) -> Seq<AbsVal> {
    Seq::new(stack.len(), |k: int| abs_of(heap, stack[k].word))
}

/// The abstraction of the whole machine.
pub open spec fn abs_state(vm: &VM) -> SpecVm {
    SpecVm {
        cl: vm.cl as int,
        ip: vm.ip as int,
        fp: vm.fp as int,
        stack: abs_stack(&vm.heap, vm.stack@),
    }
}

/// Decode an operand byte against the abstract state: tag `00` reads the
/// register `fp + index` of the frame, tag `01` the constant pool of the
/// active code object, and the reserved tags fail.
pub open spec fn spec_operand(cobs: Seq<CobEntry>, s: SpecVm, b: u8) -> Result<
    AbsVal,
    RuntimeError,
> {
    if b % 4 == 0 {
        if s.fp + b as int / 4 < s.stack.len() {
            Ok(s.stack[s.fp + b as int / 4])
        } else {
            Err(RuntimeError::BoundsError)
        }
    } else if b % 4 == 1 {
        if 0 <= s.cl < cobs.len() && b as int / 4 < cobs[s.cl].consts@.len() {
            Ok(AbsVal::Imm(cobs[s.cl].consts@[b as int / 4].word))
        } else {
            Err(RuntimeError::BoundsError)
        }
    } else {
        Err(RuntimeError::BoundsError)
    }
}

/// The integer an abstract value denotes, if it is an integer immediate.
pub open spec fn spec_as_int(a: AbsVal) -> Option<int> {
    match a {
        AbsVal::Imm(w) => if w % 4 == 1 {
            Some(crate::value::spec_int_value(w))
        } else {
            None
        },
        AbsVal::Clo(_) => None,
    }
}

/// Decode an operand that must be an integer immediate.
pub open spec fn spec_int_operand(cobs: Seq<CobEntry>, s: SpecVm, b: u8) -> Result<
    int,
    RuntimeError,
> {
    match spec_operand(cobs, s, b) {
        Err(e) => Err(e),
        Ok(v) => match spec_as_int(v) {
            Some(i) => Ok(i),
            None => Err(RuntimeError::TypeError),
        },
    }
}

/// Write a register of the current frame.
pub open spec fn spec_set_reg(s: SpecVm, d: u8, v: AbsVal) -> StepRes {
    if s.fp + d < s.stack.len() {
        StepRes::Next(SpecVm { stack: s.stack.update(s.fp + d, v), ..s })
    } else {
        StepRes::Fail(RuntimeError::BoundsError)
    }
}

/// Truncate the stack to `keep` registers, then resize it to `total`,
/// zero-filling any fresh register.
pub open spec fn spec_resize(st: Seq<AbsVal>, keep: int, total: int) -> Seq<AbsVal> {
    Seq::new(
        total as nat,
        |k: int|
            if k < keep && k < st.len() {
                st[k]
            } else {
                AbsVal::Imm(0)
            },
    )
}

/// Integer arithmetic: add, subtract or multiply the two integer operands
/// into the destination register; a non-integer operand, or a result
/// outside the immediate range, is a type error.
pub open spec fn spec_arith(cobs: Seq<CobEntry>, s: SpecVm, d: u8, lb: u8, rb: u8, op: int) -> StepRes {
    match spec_int_operand(cobs, s, lb) {
        Err(e) => StepRes::Fail(e),
        Ok(i) => match spec_int_operand(cobs, s, rb) {
            Err(e) => StepRes::Fail(e),
            Ok(j) => {
                let v = if op == 0 {
                    i + j
                } else if op == 1 {
                    i - j
                } else {
                    i * j
                };
                if !(crate::value::INT_MIN as int <= v < INT_END as int) {
                    StepRes::Fail(RuntimeError::TypeError)
                } else {
                    spec_set_reg(s, d, AbsVal::Imm(crate::value::spec_int_word(v) as u64))
                }
            },
        },
    }
}

/// Reserving a continuation frame: the caller's frame pointer, the
/// address of the instruction after the coming `call`, and the active
/// closure are stored just below the new frame pointer.
pub open spec fn spec_svk(s: SpecVm, off: u16) -> StepRes {
    let newfp = s.fp + off;
    if !(3 <= newfp <= s.stack.len()) {
        StepRes::Fail(RuntimeError::BoundsError)
    } else if s.fp >= INT_END as usize || s.ip >= (INT_END as usize) - 1 {
        StepRes::Fail(RuntimeError::BoundsError)
    } else {
        StepRes::Next(
            SpecVm {
                fp: newfp,
                stack: s.stack.update(
                    newfp - 3,
                    AbsVal::Imm(crate::value::spec_int_word(s.fp) as u64),
                ).update(
                    newfp - 2,
                    AbsVal::Imm(crate::value::spec_int_word(s.ip + 1) as u64),
                ).update(newfp - 1, AbsVal::Clo(s.cl)),
                ..s
            },
        )
    }
}

/// Closure creation: a closure over child `ci` of the active code object
/// lands in the destination register.
pub open spec fn spec_fun(cobs: Seq<CobEntry>, s: SpecVm, di: u8, ci: u16) -> StepRes {
    if !(0 <= s.cl < cobs.len() && ci < cobs[s.cl].children@.len()) {
        StepRes::Fail(RuntimeError::BoundsError)
    } else {
        let cid = cobs[s.cl].children@[ci as int] as int;
        if !(cid < INT_END as usize) {
            StepRes::Fail(RuntimeError::BoundsError)
        } else {
            spec_set_reg(s, di, AbsVal::Clo(cid))
        }
    }
}

/// The call protocol: the callee closure stands at `fp`; the machine
/// enters its code object at instruction zero with the frame pointer
/// unchanged, keeps the callee and the arguments, and resizes the stack to
/// the callee's register requirement above the frame, zero-filling fresh
/// registers.
pub open spec fn spec_call(cobs: Seq<CobEntry>, s: SpecVm, argc: u16) -> StepRes {
    if !(s.fp < s.stack.len()) {
        StepRes::Fail(RuntimeError::BoundsError)
    } else {
        match s.stack[s.fp] {
            AbsVal::Imm(_) => StepRes::Fail(RuntimeError::TypeError),
            AbsVal::Clo(cid) => {
                if s.fp + argc > usize::MAX as int {
                    StepRes::Fail(RuntimeError::BoundsError)
                } else if s.fp + cobs[cid].reg_req > usize::MAX as int {
                    StepRes::Fail(RuntimeError::BoundsError)
                } else {
                    StepRes::Next(
                        SpecVm {
                            cl: cid,
                            ip: 0,
                            fp: s.fp,
                            stack: spec_resize(s.stack, s.fp + argc, s.fp + cobs[cid].reg_req),
                        },
                    )
                }
            },
        }
    }
}

/// The return protocol: the continuation saved by `svk` at `fp - 3`,
/// `fp - 2` and `fp - 1` gives the caller's frame pointer, resume address
/// and closure; the decoded operand lands in the caller's register
/// `fp - 3`, the stack is cut back to `fp - 2` and regrown to the caller's
/// register requirement.
pub open spec fn spec_ret(cobs: Seq<CobEntry>, s: SpecVm, vi: u8) -> StepRes {
    if !(3 <= s.fp <= s.stack.len()) {
        StepRes::Fail(RuntimeError::BoundsError)
    } else {
        match spec_as_int(s.stack[s.fp - 3]) {
            None => StepRes::Fail(RuntimeError::TypeError),
            Some(nf) => {
                if !(0 <= nf <= usize::MAX as int) {
                    StepRes::Fail(RuntimeError::TypeError)
                } else {
                    match spec_as_int(s.stack[s.fp - 2]) {
                        None => StepRes::Fail(RuntimeError::TypeError),
                        Some(ri) => {
                            if !(0 <= ri <= usize::MAX as int) {
                                StepRes::Fail(RuntimeError::TypeError)
                            } else {
                                match s.stack[s.fp - 1] {
                                    AbsVal::Imm(_) => StepRes::Fail(RuntimeError::TypeError),
                                    AbsVal::Clo(cid) => match spec_operand(cobs, s, vi) {
                                        Err(e) => StepRes::Fail(e),
                                        Ok(v) => {
                                            if nf + cobs[cid].reg_req > usize::MAX as int {
                                                StepRes::Fail(RuntimeError::BoundsError)
                                            } else {
                                                StepRes::Next(
                                                    SpecVm {
                                                        cl: cid,
                                                        ip: ri,
                                                        fp: nf,
                                                        stack: spec_resize(
                                                            s.stack.update(s.fp - 3, v),
                                                            s.fp - 2,
                                                            nf + cobs[cid].reg_req,
                                                        ),
                                                    },
                                                )
                                            }
                                        },
                                    },
                                }
                            }
                        },
                    }
                }
            },
        }
    }
}

/// One step of the abstract machine, mirroring the instruction table: the
/// next instruction of the active code object is fetched and executed.
pub open spec fn spec_step(cobs: Seq<CobEntry>, s: SpecVm) -> StepRes {
    if !(0 <= s.cl < cobs.len()) {
        StepRes::Fail(RuntimeError::BoundsError)
    } else if !(0 <= s.ip < cobs[s.cl].code@.len()) {
        StepRes::Fail(RuntimeError::BoundsError)
    } else {
        let s1 = SpecVm { ip: s.ip + 1, ..s };
        match cobs[s.cl].code@[s.ip] {
            PackedInstr::Mov(di, si) => match spec_operand(cobs, s1, si) {
                Err(e) => StepRes::Fail(e),
                Ok(v) => spec_set_reg(s1, di, v),
            },
            PackedInstr::SvK(off) => spec_svk(s1, off),
            PackedInstr::Fun(di, ci) => spec_fun(cobs, s1, di, ci),
            PackedInstr::IAdd(di, lb, rb) => spec_arith(cobs, s1, di, lb, rb, 0),
            PackedInstr::ISub(di, lb, rb) => spec_arith(cobs, s1, di, lb, rb, 1),
            PackedInstr::IMul(di, lb, rb) => spec_arith(cobs, s1, di, lb, rb, 2),
            PackedInstr::ILt(lb, rb) => match spec_int_operand(cobs, s1, lb) {
                Err(e) => StepRes::Fail(e),
                Ok(i) => match spec_int_operand(cobs, s1, rb) {
                    Err(e) => StepRes::Fail(e),
                    Ok(j) => {
                        if i < j {
                            if s1.ip == usize::MAX as int {
                                StepRes::Fail(RuntimeError::BoundsError)
                            } else {
                                StepRes::Next(SpecVm { ip: s1.ip + 1, ..s1 })
                            }
                        } else {
                            StepRes::Next(s1)
                        }
                    },
                },
            },
            PackedInstr::Br(off) => {
                if s1.ip + off > usize::MAX as int {
                    StepRes::Fail(RuntimeError::BoundsError)
                } else {
                    StepRes::Next(SpecVm { ip: s1.ip + off, ..s1 })
                }
            },
            PackedInstr::Call(argc) => spec_call(cobs, s1, argc),
            PackedInstr::Ret(vi) => spec_ret(cobs, s1, vi),
            PackedInstr::Halt(ri) => match spec_operand(cobs, s1, ri) {
                Err(e) => StepRes::Fail(e),
                Ok(v) => StepRes::Halt(v),
            },
        }
    }
}

/// The abstract machine after `n` steps: still running in some state,
/// halted, or failed.
pub open spec fn spec_run(cobs: Seq<CobEntry>, s: SpecVm, n: nat) -> StepRes
    decreases n,
{
    if n == 0 {
        StepRes::Next(s)
    } else {
        match spec_step(cobs, s) {
            StepRes::Next(s2) => spec_run(cobs, s2, (n - 1) as nat),
            other => other,
        }
    }
}

/// Extending a running trace by one step.
pub proof fn lemma_run_extend(cobs: Seq<CobEntry>, s0: SpecVm, s: SpecVm, n: nat)
    requires
        spec_run(cobs, s0, n) == StepRes::Next(s),
    ensures
        spec_run(cobs, s0, n + 1) == spec_step(cobs, s),
    decreases n,
{
    if n == 0 {
        assert(spec_run(cobs, s0, 0nat) == StepRes::Next(s0));
        assert(s0 == s);
        assert(spec_run(cobs, s0, 1nat) == (match spec_step(cobs, s0) {
            StepRes::Next(s2) => spec_run(cobs, s2, 0nat),
            other => other,
        }));
    } else {
        match spec_step(cobs, s0) {
            StepRes::Next(s2) => {
                lemma_run_extend(cobs, s2, s, (n - 1) as nat);
                assert(spec_run(cobs, s0, n + 1) == (match spec_step(cobs, s0) {
                    StepRes::Next(s3) => spec_run(cobs, s3, n),
                    other => other,
                }));
            },
            _ => {
                assert(spec_run(cobs, s0, n) == spec_step(cobs, s0));
            },
        }
    }
}

/// Updating one register commutes with abstraction.
proof fn lemma_abs_update(heap: &Interpreter, st: Seq<ValueRef>, i: int, v: ValueRef)
    requires
        0 <= i < st.len(),
    ensures
        abs_stack(heap, st.update(i, v)) == abs_stack(heap, st).update(i, abs_of(heap, v.word)),
{
    assert(abs_stack(heap, st.update(i, v)) =~= abs_stack(heap, st).update(
        i,
        abs_of(heap, v.word),
    ));
}

/// Resizing the stack commutes with abstraction: the null filler abstracts
/// to the zero immediate.
proof fn lemma_abs_resize(
    heap: &Interpreter,
    st: Seq<ValueRef>,
    st2: Seq<ValueRef>,
    keep: int,
    total: int,
)
    requires
        total >= 0,
        st2.len() == total,
        forall|k: int|
            0 <= k < total ==> (#[trigger] st2[k]) == (if k < keep && k < st.len() {
                st[k]
            } else {
                ValueRef { word: 0 }
            }),
    ensures
        abs_stack(heap, st2) == spec_resize(abs_stack(heap, st), keep, total),
{
    assert(abs_stack(heap, st2) =~= spec_resize(abs_stack(heap, st), keep, total));
}

/// A heap that keeps its memory words keeps every abstraction.
proof fn lemma_abs_same_mem(pre: &Interpreter, post: &Interpreter, st: Seq<ValueRef>)
    requires
        post.gen.mem@ == pre.gen.mem@,
    ensures
        abs_stack(post, st) == abs_stack(pre, st),
        forall|w: u64| #[trigger] abs_of(post, w) == abs_of(pre, w),
{
    assert(abs_stack(post, st) =~= abs_stack(pre, st));
}

} // verus!

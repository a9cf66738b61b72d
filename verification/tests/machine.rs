use proff::bytecode::{Assembler, Instr, Operand};
use proff::heap::Generation;
use proff::interp::{Interpreter, RuntimeError, TypeIndex, HEAP_VALUE_GSIZE, TYPE_GSIZE};
use proff::value::ValueRef;
use proff::vm::{CodeObject, PackedInstr, VM};

fn iv(i: i64) -> ValueRef {
    ValueRef::from_int(i)
}

fn local(i: u8) -> u8 {
    Operand::Local(i).to_byte()
}

fn konst(i: u8) -> u8 {
    Operand::Const(i).to_byte()
}

fn run_cob(cob: CodeObject) -> Result<ValueRef, RuntimeError> {
    let interp = Interpreter::new(1 << 16);
    let mut vm = match VM::new(interp, cob) {
        Ok(vm) => vm,
        Err(e) => return Err(e),
    };
    vm.run()
}

#[test]
fn fact() {
    let cob = CodeObject {
        code: vec![
            PackedInstr::Fun(3, 0),
            PackedInstr::Mov(4, konst(0)),
            PackedInstr::SvK(3),
            PackedInstr::Call(2),
            PackedInstr::Halt(local(0)),
        ],
        consts: vec![iv(5)],
        reg_req: 5,
        cobs: vec![CodeObject {
            code: vec![
                PackedInstr::ILt(local(1), konst(0)),
                PackedInstr::Br(1),
                PackedInstr::Ret(konst(1)),
                PackedInstr::ISub(2, local(1), konst(1)),
                PackedInstr::Mov(4, local(0)),
                PackedInstr::Mov(0, local(1)),
                PackedInstr::Mov(5, local(2)),
                PackedInstr::SvK(4),
                PackedInstr::Call(2),
                PackedInstr::IMul(2, local(0), local(1)),
                PackedInstr::Ret(local(2)),
            ],
            consts: vec![iv(2), iv(1)],
            reg_req: 6,
            cobs: vec![],
        }],
    };
    let out = run_cob(cob).unwrap();
    assert_eq!(out.as_int().unwrap(), 120i64);
}

#[test]
fn tailfact() {
    let cob = CodeObject {
        code: vec![
            PackedInstr::Fun(3, 0),
            PackedInstr::Mov(4, konst(0)),
            PackedInstr::Mov(5, konst(1)),
            PackedInstr::SvK(3),
            PackedInstr::Call(3),
            PackedInstr::Halt(local(0)),
        ],
        consts: vec![iv(5), iv(1)],
        reg_req: 6,
        cobs: vec![CodeObject {
            code: vec![
                PackedInstr::ILt(local(1), konst(0)),
                PackedInstr::Br(1),
                PackedInstr::Ret(local(2)),
                PackedInstr::ISub(3, local(1), konst(1)),
                PackedInstr::IMul(4, local(1), local(2)),
                PackedInstr::Mov(1, local(3)),
                PackedInstr::Mov(2, local(4)),
                PackedInstr::Call(3),
            ],
            consts: vec![iv(2), iv(1)],
            reg_req: 5,
            cobs: vec![],
        }],
    };
    let out = run_cob(cob).unwrap();
    assert_eq!(out.as_int().unwrap(), 120i64);
}

#[test]
fn ilt_skip_taken() {
    // Local(0) = 0, Const(0) = 1: the comparison holds, the next
    // instruction is skipped, and the second halt yields 9.
    let cob = CodeObject {
        code: vec![
            PackedInstr::Mov(0, konst(3)),
            PackedInstr::ILt(local(0), konst(0)),
            PackedInstr::Halt(konst(1)),
            PackedInstr::Halt(konst(2)),
        ],
        consts: vec![iv(1), iv(7), iv(9), iv(0)],
        reg_req: 1,
        cobs: vec![],
    };
    let out = run_cob(cob).unwrap();
    assert_eq!(out.as_int().unwrap(), 9i64);
}

#[test]
fn ilt_skip_not_taken() {
    // Local(0) = 2: the comparison fails and the first halt yields 7.
    let cob = CodeObject {
        code: vec![
            PackedInstr::Mov(0, konst(3)),
            PackedInstr::ILt(local(0), konst(0)),
            PackedInstr::Halt(konst(1)),
            PackedInstr::Halt(konst(2)),
        ],
        consts: vec![iv(1), iv(7), iv(9), iv(2)],
        reg_req: 1,
        cobs: vec![],
    };
    let out = run_cob(cob).unwrap();
    assert_eq!(out.as_int().unwrap(), 7i64);
}

#[test]
fn arith_type_error() {
    // Adding a boolean is a type error.
    let cob = CodeObject {
        code: vec![
            PackedInstr::IAdd(0, konst(0), konst(1)),
            PackedInstr::Halt(local(0)),
        ],
        consts: vec![iv(1), ValueRef::from_bool(true)],
        reg_req: 1,
        cobs: vec![],
    };
    assert_eq!(run_cob(cob), Err(RuntimeError::TypeError));
}

#[test]
fn bad_ip_bounds_error() {
    // Branching past the end of the code is a bounds error.
    let cob = CodeObject {
        code: vec![PackedInstr::Br(100)],
        consts: vec![],
        reg_req: 1,
        cobs: vec![],
    };
    assert_eq!(run_cob(cob), Err(RuntimeError::BoundsError));
}

#[test]
fn assembler_reg_req() {
    // The requirement is the maximum of destination + 1 and local
    // operand index + 1 across the code.
    let mut a = Assembler::new();
    assert_eq!(a.reg_req, 0);
    a.push_instr(Instr::Mov(4, Operand::Const(0)));
    assert_eq!(a.reg_req, 5);
    a.push_instr(Instr::IAdd(2, Operand::Local(7), Operand::Const(1)));
    assert_eq!(a.reg_req, 8);
    a.push_instr(Instr::SvK(3));
    assert_eq!(a.reg_req, 8);
    a.push_instr(Instr::Halt(Operand::Local(1)));
    assert_eq!(a.reg_req, 8);
    let cob = a.assemble();
    assert_eq!(cob.reg_req, 8);
    assert_eq!(cob.code.len(), 4);
    // A closure destination and the second comparison operand count too.
    let mut b = Assembler::new();
    b.push_instr(Instr::Fun(3, 0));
    assert_eq!(b.reg_req, 4);
    b.push_instr(Instr::ILt(Operand::Const(0), Operand::Local(9)));
    assert_eq!(b.reg_req, 10);
}

#[test]
fn assembled_program_runs() {
    let mut a = Assembler::new();
    a.push_const(proff::ast::ConstVal::Int(33));
    a.push_const(proff::ast::ConstVal::Int(9));
    a.push_instr(Instr::IAdd(0, Operand::Const(0), Operand::Const(1)));
    a.push_instr(Instr::Halt(Operand::Local(0)));
    let cob = a.assemble();
    let out = run_cob(cob).unwrap();
    assert_eq!(out.as_int().unwrap(), 42i64);
}

#[test]
fn heap_value_size() {
    assert_eq!(HEAP_VALUE_GSIZE, 2);
}

#[test]
fn type_size() {
    assert_eq!(TYPE_GSIZE, 4);
}

#[test]
fn allocation_is_exact_and_disjoint() {
    // Every allocated slot has at least the requested granules and starts
    // past the reserved null granule.
    let mut gen = Generation::new(64);
    let a = gen.allocate(1, 5).unwrap();
    let b = gen.allocate(1, 3).unwrap();
    assert!(a >= 1);
    assert!(b >= a + 5 || a >= b + 3);
}

#[test]
fn gc_retry() {
    // Fill a tiny heap with constants, keep a single root, and let the
    // retry protocol collect the garbage: the next creation succeeds.
    let mut interp = Interpreter::new(256);
    let mut keep: Vec<ValueRef> = Vec::new();
    let mut filled = 0u64;
    loop {
        match interp.create_const(iv(7)) {
            Some(v) => {
                if keep.is_empty() {
                    keep.push(v);
                }
                filled += 1;
            }
            None => break,
        }
    }
    assert!(filled > 1);
    // The heap is full now.
    assert!(interp.create_const(iv(8)).is_none());
    // The retry constructor collects everything unreachable from the one
    // root and succeeds.
    let got = interp.create_const_retry(&mut keep, iv(8)).unwrap();
    assert_eq!(interp.gen.load(got.as_pointer().unwrap() as usize + 2), iv(8).word);
    // The kept constant survived with its payload.
    let kept_addr = keep[0].as_pointer().unwrap() as usize;
    assert_eq!(interp.gen.load(kept_addr + 2), iv(7).word);
}

#[test]
fn free_list_reuse() {
    // Drop every other object by dropping roots; after a collection the
    // same-sized allocations fit without growing the frontier.
    let mut interp = Interpreter::new(4096);
    let mut all: Vec<ValueRef> = Vec::new();
    for i in 0..10i64 {
        all.push(interp.create_const(iv(i)).unwrap());
    }
    let bump_before = interp.gen.bump;
    let mut roots: Vec<ValueRef> = all.iter().copied().step_by(2).collect();
    interp.collect(&mut roots);
    for i in 0..5i64 {
        let v = interp.create_const_retry(&mut roots, iv(100 + i)).unwrap();
        roots.push(v);
    }
    assert_eq!(interp.gen.bump, bump_before);
}

#[test]
fn registry_lookup() {
    let interp = Interpreter::new(1024);
    let t = interp.types.get(TypeIndex::Type);
    assert_eq!(interp.types.index_of(t), Some(TypeIndex::Type));
    let c = interp.types.get(TypeIndex::Closure);
    assert_eq!(interp.types.index_of(c), Some(TypeIndex::Closure));
    assert!(interp.types.index_of(ValueRef::from_int(1)).is_none());
}

use proff::ast::{parse_block, BlockItem, Clause, ConstVal, Name, SrcPos, Stmt, Var, VarRef, AST};
use proff::flatten::{Env, Binding, Expr};
use proff::freelist::{Bucketed, ExactFit, FirstFit, FreeListNode};
use proff::value::ValueRef;

fn pos() -> SrcPos {
    SrcPos { line: 1, col: 1 }
}

fn name(s: &str) -> Name {
    Name::source(String::from(s))
}

#[test]
fn int_round_trip() {
    for i in [0i64, 1, -1, 42, -42, 2305843009213693951, -2305843009213693952] {
        let v = ValueRef::from_int(i);
        assert_eq!(v.as_int().unwrap(), i);
        assert!(!v.is_pointer());
    }
}

#[test]
fn bool_and_char_round_trip() {
    assert_eq!(ValueRef::from_bool(true).as_bool().unwrap(), true);
    assert_eq!(ValueRef::from_bool(false).as_bool().unwrap(), false);
    assert_eq!(ValueRef::from_char('q').as_char().unwrap(), 'q');
    assert_eq!(ValueRef::from_char('\u{1F600}').as_char().unwrap(), '\u{1F600}');
    assert!(ValueRef::from_char('x').as_int().is_none());
}

#[test]
fn tag_disjointness() {
    // is_pointer holds exactly when the low bits carry the pointer tag
    // and the word is non-zero.
    for w in 0u64..64 {
        let v = ValueRef { word: w };
        assert_eq!(v.is_pointer(), w % 4 == 0 && w != 0);
    }
    assert!(ValueRef::null().is_null());
    assert!(!ValueRef::null().is_pointer());
}

#[test]
fn first_fit_release_then_allocate() {
    // A released run is retrievable by an allocation of the same size.
    let mut pool = FirstFit::new(1);
    assert!(pool.allocate_at_least(1, 4).is_none());
    assert!(pool.try_release(FreeListNode { start: 10, len: 4 }).is_none());
    let got = pool.allocate_at_least(1, 4).unwrap();
    assert_eq!(got.start, 10);
    assert_eq!(got.len(), 4);
}

#[test]
fn first_fit_splits() {
    let mut pool = FirstFit::new(1);
    assert!(pool.try_release(FreeListNode { start: 10, len: 10 }).is_none());
    let got = pool.allocate_at_least(1, 4).unwrap();
    assert_eq!((got.start, got.len), (10, 4));
    let rest = pool.allocate_at_least(1, 6).unwrap();
    assert_eq!((rest.start, rest.len), (14, 6));
}

#[test]
fn bucketed_release_then_allocate() {
    // alloc_index(x) >= free_index(x): a run filed at size 3 is found by
    // an allocation of size 3.
    let mut pool: Bucketed<ExactFit> = Bucketed::new(8);
    assert!(pool.try_release(FreeListNode { start: 20, len: 3 }).is_none());
    let got = pool.allocate_at_least(1, 3).unwrap();
    assert_eq!((got.start, got.len), (20, 3));
    // A run too large for any class is handed back.
    let back = pool.try_release(FreeListNode { start: 30, len: 100 });
    assert!(back.is_some());
}

#[test]
fn parse_block_shapes() {
    let empty = parse_block(pos(), Vec::new()).unwrap();
    assert!(matches!(empty, AST::Block { .. }));

    let stmts = vec![
        BlockItem::Stmt(Stmt::Expr(AST::Const { pos: pos(), val: ConstVal::Int(1) })),
        BlockItem::Stmt(Stmt::Expr(AST::Const { pos: pos(), val: ConstVal::Int(2) })),
    ];
    assert!(matches!(parse_block(pos(), stmts).unwrap(), AST::Block { .. }));

    let mixed = vec![
        BlockItem::Stmt(Stmt::Expr(AST::Const { pos: pos(), val: ConstVal::Int(1) })),
        BlockItem::Clause(Clause {
            pos: pos(),
            params: vec![name("x")],
            cond: AST::Const { pos: pos(), val: ConstVal::Bool(true) },
            body: vec![],
        }),
    ];
    assert!(parse_block(pos(), mixed).is_none());

    let clauses = vec![
        BlockItem::Clause(Clause {
            pos: pos(),
            params: vec![name("x")],
            cond: AST::Const { pos: pos(), val: ConstVal::Bool(true) },
            body: vec![],
        }),
        BlockItem::Stmt(Stmt::Expr(AST::Const { pos: pos(), val: ConstVal::Int(3) })),
    ];
    match parse_block(pos(), clauses).unwrap() {
        AST::Fn { clauses, .. } => {
            assert_eq!(clauses.len(), 1);
            assert_eq!(clauses[0].body.len(), 1);
        }
        _ => panic!("expected a function block"),
    }
}

#[test]
fn new_if_shape() {
    let tpos = SrcPos { line: 2, col: 5 };
    let epos = SrcPos { line: 3, col: 9 };
    let e = AST::new_if(
        pos(),
        AST::Const { pos: pos(), val: ConstVal::Bool(true) },
        AST::Const { pos: tpos, val: ConstVal::Int(1) },
        AST::Const { pos: epos, val: ConstVal::Int(2) },
    );
    match e {
        AST::App { op, args, .. } => {
            assert_eq!(args.len(), 1);
            match *op {
                AST::Fn { clauses, .. } => {
                    assert_eq!(clauses.len(), 2);
                    // Clause positions come from the branches, as in the
                    // source construction.
                    assert_eq!(clauses[0].pos, tpos);
                    assert_eq!(clauses[1].pos, epos);
                }
                _ => panic!("expected a function operator"),
            }
        }
        _ => panic!("expected an application"),
    }
}

#[test]
fn resolve_classification() {
    // A hit in the innermost frames before any function boundary is a
    // local; beyond a function boundary a clover; a miss a global.
    let mut env = Env::new();
    let x = name("x");
    let xr = Name { base: String::from("x"), id: 7 };
    env.clause(vec![Binding { from: x.duplicate(), to: xr.duplicate() }]);
    match env.resolve(&x) {
        VarRef::Local(n) => assert_eq!(n.id, 7),
        _ => panic!("expected a local"),
    }
    // A block frame is transparent; a function frame crossed makes the
    // reference a clover.
    env.block(Vec::new());
    match env.resolve(&x) {
        VarRef::Local(n) => assert_eq!(n.id, 7),
        _ => panic!("expected a local through the block frame"),
    }
    env.clause(Vec::new());
    match env.resolve(&x) {
        VarRef::Clover(n) => assert_eq!(n.id, 7),
        _ => panic!("expected a clover across the function frame"),
    }
    match env.resolve(&name("y")) {
        VarRef::Global(n) => assert_eq!(n.id, 0),
        _ => panic!("expected a global"),
    }
}

#[test]
fn flatten_nested_blocks() {
    // { x = 1; { y = x; y } }: the inner block captures x as a local
    // (the block frame is transparent), no procedure is emitted, and both
    // definitions carry fresh renamed names.
    let inner = AST::Block {
        pos: pos(),
        stmts: vec![
            Stmt::Def {
                name: name("y"),
                val: AST::Var(Var { pos: pos(), name: VarRef::Global(name("x")) }),
            },
            Stmt::Expr(AST::Var(Var { pos: pos(), name: VarRef::Global(name("y")) })),
        ],
    };
    let program = AST::Block {
        pos: pos(),
        stmts: vec![
            Stmt::Def { name: name("x"), val: AST::Const { pos: pos(), val: ConstVal::Int(1) } },
            Stmt::Expr(inner),
        ],
    };
    let flat = program.flatten();
    assert_eq!(flat.procs.len(), 0);
    match &flat.expr {
        Expr::Block { stmts, .. } => {
            assert_eq!(stmts.len(), 2);
            let x_renamed = match &stmts[0] {
                proff::flatten::Stmt::Def { name, .. } => {
                    assert!(name.id > 0);
                    name.id
                }
                _ => panic!("expected the definition of x"),
            };
            match &stmts[1] {
                proff::flatten::Stmt::Expr(Expr::Block { stmts: inner_stmts, .. }) => {
                    assert_eq!(inner_stmts.len(), 2);
                    match &inner_stmts[0] {
                        proff::flatten::Stmt::Def { name, val } => {
                            assert!(name.id > 0);
                            assert_ne!(name.id, x_renamed);
                            match val {
                                Expr::Var(v) => match &v.name {
                                    VarRef::Local(n) => assert_eq!(n.id, x_renamed),
                                    _ => panic!("x must stay a local through the block frame"),
                                },
                                _ => panic!("expected a variable"),
                            }
                        }
                        _ => panic!("expected the definition of y"),
                    }
                }
                _ => panic!("expected the inner block"),
            }
        }
        _ => panic!("expected a block"),
    }
}

#[test]
fn flatten_emits_proc_with_freevars() {
    // A function referencing an outer definition closes over it: the
    // lifted procedure records the renamed name among its free variables.
    let program = AST::Block {
        pos: pos(),
        stmts: vec![
            Stmt::Def { name: name("x"), val: AST::Const { pos: pos(), val: ConstVal::Int(1) } },
            Stmt::Expr(AST::Fn {
                pos: pos(),
                clauses: vec![proff::ast::Clause {
                    pos: pos(),
                    params: vec![name("a")],
                    cond: AST::Const { pos: pos(), val: ConstVal::Bool(true) },
                    body: vec![Stmt::Expr(AST::Var(Var {
                        pos: pos(),
                        name: VarRef::Global(name("x")),
                    }))],
                }],
            }),
        ],
    };
    let flat = program.flatten();
    assert_eq!(flat.procs.len(), 1);
    let proc = &flat.procs[0];
    assert_eq!(proc.fun.freevars.len(), 1);
    assert_eq!(proc.fun.clauses.len(), 1);
    // The synthetic self parameter is prepended, and the clause's
    // parameter binders carry distinct renamed names.
    let ps = &proc.fun.clauses[0].clauses[0].params;
    assert_eq!(ps.len(), 2);
    assert_ne!(ps[0].id, ps[1].id);
    // The closure's free variables agree with the registered procedure's,
    // key for key.
    match &flat.expr {
        Expr::Block { stmts, .. } => match &stmts[1] {
            proff::flatten::Stmt::Expr(Expr::Closure(c)) => {
                assert_eq!(c.freevars.len(), proc.fun.freevars.len());
                assert_eq!(c.freevars[0].id, proc.fun.freevars[0].id);
            }
            _ => panic!("expected a closure"),
        },
        _ => panic!("expected a block"),
    }
    match &flat.expr {
        Expr::Block { stmts, .. } => match &stmts[1] {
            proff::flatten::Stmt::Expr(Expr::Closure(c)) => {
                assert_eq!(c.freevars.len(), 1);
            }
            _ => panic!("expected a closure in place of the function"),
        },
        _ => panic!("expected a block"),
    }
}

//! The abstract syntax tree the flatten pass consumes.
//!
//! Names carry the original spelling and a rename stamp: stamp zero marks a
//! source name, a positive stamp a name produced by the renamer; two names
//! are the same exactly when spelling and stamp agree.

use vstd::prelude::*;

verus! {

/// A position in the source text.
#[derive(Clone, Copy, PartialEq, Eq, Structural, Debug)]
pub struct SrcPos {
    pub line: usize,
    pub col: usize,
}

/// A variable name: its source spelling and its rename stamp.
pub struct Name {
    pub base: String,
    pub id: usize,
}

impl Name {
    /// The spelling-and-stamp pair that identifies the name.
    pub open spec fn key(&self) -> (Seq<char>, int) {
        (self.base@, self.id as int)
    }

    /// A source name: the given spelling, stamp zero.
    pub fn source(base: String) -> (r: Name)
        ensures
            r.base@ == base@,
            r.id == 0,
    {
        Name { base, id: 0 }
    }

    /// An identical copy of the name.
    pub fn duplicate(&self) -> (r: Name)
        ensures
            r.key() == self.key(),
            r.id == self.id,
            r.base@ == self.base@,
    {
        Name { base: self.base.clone(), id: self.id }
    }

    /// Do two names denote the same binding?
    pub fn same(&self, other: &Name) -> (r: bool)
        ensures
            r == (self.key() == other.key()),
    {
        self.id == other.id && self.base == other.base
    }
}

/// A variable reference, classified by the resolver: bound in the current
/// function, closed over from an enclosing function, or global.
pub enum VarRef {
    Local(Name),
    Clover(Name),
    Global(Name),
}

impl VarRef {
    /// The name under the classification.
    pub fn name(&self) -> (r: &Name)
        ensures
            r.key() == self.spec_name().key(),
    {
        match self {
            VarRef::Local(name) => name,
            VarRef::Clover(name) => name,
            VarRef::Global(name) => name,
        }
    }

    /// The name under the classification.
    pub open spec fn spec_name(&self) -> Name {
        match self {
            VarRef::Local(name) => *name,
            VarRef::Clover(name) => *name,
            VarRef::Global(name) => *name,
        }
    }

    /// Is this a closed-over reference?
    pub open spec fn is_clover(&self) -> bool {
        self is Clover
    }
}

/// A variable reference with its position.
pub struct Var {
    pub pos: SrcPos,
    pub name: VarRef,
}

impl Var {
    /// The referenced name.
    pub fn name(&self) -> (r: &Name)
        ensures
            r.key() == self.name.spec_name().key(),
    {
        self.name.name()
    }
}

/// A source constant. Floating-point literals belong to the host surface
/// outside the verified core, and string literals to the symbol subsystem
/// of the parser; the core carries the immediates.
#[derive(Clone, Copy, PartialEq, Eq, Structural)]
pub enum ConstVal {
    Int(i64),
    Char(char),
    Bool(bool),
}

/// Abstract syntax tree.
pub enum AST {
    Block { pos: SrcPos, stmts: Vec<Stmt> },
    Fn { pos: SrcPos, clauses: Vec<Clause> },
    App { pos: SrcPos, op: Box<AST>, args: Vec<AST> },
    PrimApp(Box<PrimApp>),
    Var(Var),
    Const { pos: SrcPos, val: ConstVal },
}

/// A primitive instruction application.
pub enum PrimApp {
    IAdd(SrcPos, AST, AST),
}

impl AST {
    /// The source position of the node.
    pub fn pos(&self) -> (r: SrcPos)
        ensures
            r == self.spec_pos(),
    {
        match self {
            AST::Block { pos, .. } => *pos,
            AST::Fn { pos, .. } => *pos,
            AST::App { pos, .. } => *pos,
            AST::PrimApp(p) => match &**p {
                PrimApp::IAdd(pos, ..) => *pos,
            },
            AST::Var(v) => v.pos,
            AST::Const { pos, .. } => *pos,
        }
    }

    /// The source position of the node.
    pub open spec fn spec_pos(&self) -> SrcPos {
        match *self {
            AST::Block { pos, .. } => pos,
            AST::Fn { pos, .. } => pos,
            AST::App { pos, .. } => pos,
            AST::PrimApp(p) => match *p {
                PrimApp::IAdd(pos, ..) => pos,
            },
            AST::Var(v) => v.pos,
            AST::Const { pos, .. } => pos,
        }
    }
}

/// Statement: a definition or a bare expression.
pub enum Stmt {
    Def { name: Name, val: AST },
    Expr(AST),
}

impl Stmt {
    /// The statement's expression, definition or not.
    pub fn into_expr(self) -> (r: AST)
        ensures
            r == match self {
                Stmt::Def { val, .. } => val,
                Stmt::Expr(e) => e,
            },
    {
        match self {
            Stmt::Def { val, .. } => val,
            Stmt::Expr(e) => e,
        }
    }
}

/// Function clause: parameters, a guard condition and a statement body.
pub struct Clause {
    pub pos: SrcPos,
    pub params: Vec<Name>,
    pub cond: AST,
    pub body: Vec<Stmt>,
}

/// A block item, as the parser hands them over: a statement or a clause.
pub enum BlockItem {
    Stmt(Stmt),
    Clause(Clause),
}

/// How many statement items stand at the front of `items` from `from` on:
/// the statements the preceding clause gathers.
pub open spec fn spec_stmt_run(items: Seq<BlockItem>, from: int) -> int
    decreases items.len() - from,
{
    if from < 0 || from >= items.len() {
        0
    } else {
        match items[from] {
            BlockItem::Stmt(_) => 1 + spec_stmt_run(items, from + 1),
            BlockItem::Clause(_) => 0,
        }
    }
}

/// The clauses group the items: each clause item, in order, carries its
/// own body followed by exactly the statement items after it, up to the
/// next clause item.
pub open spec fn spec_groups(items: Seq<BlockItem>, clauses: Seq<Clause>) -> bool
    decreases items.len(),
{
    if items.len() == 0 {
        clauses.len() == 0
    } else {
        match items[0] {
            BlockItem::Stmt(_) => false,
            BlockItem::Clause(c0) => clauses.len() > 0 && {
                let run = spec_stmt_run(items, 1);
                let c = clauses[0];
                if 0 <= run && 1 + run <= items.len() {
                    &&& c.pos == c0.pos
                    &&& c.params@ == c0.params@
                    &&& c.cond == c0.cond
                    &&& c.body@.len() == c0.body@.len() + run
                    &&& c.body@.subrange(0, c0.body@.len() as int) == c0.body@
                    &&& forall|j: int|
                        0 <= j < run ==> (#[trigger] items[1 + j] matches BlockItem::Stmt(st)
                            && c.body@[c0.body@.len() + j] == st)
                    &&& spec_groups(
                        items.subrange(1 + run, items.len() as int),
                        clauses.drop_first(),
                    )
                } else {
                    false
                }
            },
        }
    }
}

/// Try to convert a sequence of block items into either a statement block
/// or a function. A block whose first item is a statement must hold
/// statements only; one whose first item is a clause becomes a function,
/// each clause carrying the statements that follow it; an empty block is
/// an empty statement block.
pub fn parse_block(pos: SrcPos, items: Vec<BlockItem>) -> (r: Option<AST>)
    ensures
        (forall|i: int| 0 <= i < items@.len() ==> (#[trigger] items@[i]) is Stmt) ==> (r matches
            Some(a) && (a matches AST::Block { pos: p, stmts } && p == pos && stmts@.len()
            == items@.len() && (forall|i: int|
            0 <= i < items@.len() ==> ((#[trigger] items@[i]) matches BlockItem::Stmt(s)
                && stmts@[i] == s)))),
        items@.len() > 0 && items@[0] is Stmt ==> ((r matches Some(a) && a is Block) <==> (
        forall|i: int| 0 <= i < items@.len() ==> (#[trigger] items@[i]) is Stmt)),
        items@.len() > 0 && items@[0] is Stmt ==> (r is None || (r matches Some(a) && a is Block)),
        items@.len() > 0 && items@[0] is Clause ==> (r matches Some(a) && (a matches AST::Fn {
            pos: p, clauses } && p == pos && spec_groups(items@, clauses@))),
{
    let n = items.len();
    if n == 0 {
        return Some(AST::Block { pos, stmts: Vec::new() });
    }
    let first_is_clause = match &items[0] {
        BlockItem::Clause(_) => true,
        BlockItem::Stmt(_) => false,
    };
    if first_is_clause {
        parse_fn_block(pos, items)
    } else {
        parse_stmt_block(pos, items)
    }
}

/// Collect a pure statement block; any clause among the items refuses the
/// whole block.
fn parse_stmt_block(pos: SrcPos, items: Vec<BlockItem>) -> (r: Option<AST>)
    ensures
        (r matches Some(a) && a is Block) <==> (forall|i: int|
            0 <= i < items@.len() ==> (#[trigger] items@[i]) is Stmt),
        r is Some ==> (r matches Some(a) && a is Block),
        r matches Some(a) ==> (a matches AST::Block { pos: p, stmts } && p == pos && stmts@.len()
            == items@.len() && (forall|i: int|
            0 <= i < items@.len() ==> ((#[trigger] items@[i]) matches BlockItem::Stmt(s)
                && stmts@[i] == s))),
{
    let mut stmts: Vec<Stmt> = Vec::new();
    let ghost orig = items@;
    let mut rest = items;
    let ghost mut consumed: int = 0;
    // Take the items front to back; a clause anywhere refuses the block.
    while rest.len() > 0
        invariant
            orig == items@,
            0 <= consumed <= orig.len(),
            rest@ =~= orig.subrange(consumed, orig.len() as int),
            stmts@.len() == consumed,
            forall|i: int|
                0 <= i < consumed ==> ((#[trigger] orig[i]) matches BlockItem::Stmt(s)
                    && stmts@[i] == s),
        decreases rest@.len(),
    {
        let item = rest.remove(0);
        match item {
            BlockItem::Stmt(s) => stmts.push(s),
            BlockItem::Clause(_) => {
                proof {
                    assert(orig[consumed] is Clause);
                    assert(items@ == orig);
                    assert(items@[consumed] is Clause);
                    assert(!(forall|i: int|
                        0 <= i < items@.len() ==> (#[trigger] items@[i]) is Stmt));
                }
                return None;
            },
        }
        proof {
            assert(orig[consumed] matches BlockItem::Stmt(s2) && stmts@.last() == s2);
            consumed = consumed + 1;
            assert(rest@ =~= orig.subrange(consumed, orig.len() as int));
        }
    }
    proof {
        assert(consumed == orig.len());
    }
    Some(AST::Block { pos, stmts })
}

/// Collect a function block: every clause gathers the statements that
/// follow it, up to the next clause.
fn parse_fn_block(pos: SrcPos, items: Vec<BlockItem>) -> (r: Option<AST>)
    requires
        items@.len() > 0,
        items@[0] is Clause,
    ensures
        r matches Some(a) && (a matches AST::Fn { pos: p, clauses } && p == pos && spec_groups(
            items@,
            clauses@,
        )),
{
    let mut clauses: Vec<Clause> = Vec::new();
    let ghost orig = items@;
    let mut rest = items;
    while rest.len() > 0
        invariant
            orig == items@,
            rest@.len() == 0 || rest@[0] is Clause,
            forall|future: Seq<Clause>|
                spec_groups(rest@, future) ==> #[trigger] spec_groups(orig, clauses@ + future),
        decreases rest@.len(),
    {
        let ghost rest0 = rest@;
        let item = rest.remove(0);
        match item {
            BlockItem::Clause(mut clause) => {
                let ghost body0 = clause.body@;
                // Attach the trailing statements to this clause.
                let ghost mut run: int = 0;
                let mut done = false;
                while !done
                    invariant
                        rest0.len() >= 1,
                        0 <= run <= rest0.len() - 1,
                        rest@ =~= rest0.subrange(1 + run, rest0.len() as int),
                        clause.body@.len() == body0.len() + run,
                        clause.body@.subrange(0, body0.len() as int) == body0,
                        clause.pos == rest0[0]->Clause_0.pos,
                        clause.params@ == rest0[0]->Clause_0.params@,
                        clause.cond == rest0[0]->Clause_0.cond,
                        rest0[0] is Clause,
                        body0 == rest0[0]->Clause_0.body@,
                        forall|j: int|
                            0 <= j < run ==> (#[trigger] rest0[1 + j] matches BlockItem::Stmt(st)
                                && clause.body@[body0.len() + j] == st),
                        done ==> (rest@.len() == 0 || rest@[0] is Clause),
                    decreases rest@.len() * 2 + (if done {
                        0int
                    } else {
                        1int
                    }),
                {
                    if rest.len() == 0 {
                        done = true;
                    } else {
                        let take = match &rest[0] {
                            BlockItem::Stmt(_) => true,
                            BlockItem::Clause(_) => false,
                        };
                        if take {
                            let ghost b_pre = clause.body@;
                            let next = rest.remove(0);
                            match next {
                                BlockItem::Stmt(st) => {
                                    clause.body.push(st);
                                    proof {
                                        assert(rest0[1 + run] matches BlockItem::Stmt(s2)
                                            && clause.body@[body0.len() + run] == s2);
                                        run = run + 1;
                                        assert(rest@ =~= rest0.subrange(
                                            1 + run,
                                            rest0.len() as int,
                                        ));
                                        assert(clause.body@.subrange(0, body0.len() as int)
                                            =~= body0);
                                    }
                                },
                                BlockItem::Clause(_) => {},
                            }
                        } else {
                            done = true;
                        }
                    }
                }
                proof {
                    // The gathered statements are exactly the maximal
                    // statement run after the clause.
                    lemma_stmt_run_exact(rest0, run);
                }
                let ghost pre_clauses = clauses@;
                clauses.push(clause);
                proof {
                    let c = clauses@.last();
                    assert forall|future: Seq<Clause>|
                        spec_groups(rest@, future) implies #[trigger] spec_groups(
                        orig,
                        clauses@ + future,
                    ) by {
                        assert(spec_groups(rest0, seq![c] + future)) by {
                            assert((seq![c] + future)[0] == c);
                            assert((seq![c] + future).drop_first() =~= future);
                            assert(rest0.subrange(1 + run, rest0.len() as int) =~= rest@);
                        }
                        assert(pre_clauses + (seq![c] + future) =~= clauses@ + future);
                    }
                }
            },
            BlockItem::Stmt(_) => {
                proof {
                    assert(false);
                }
            },
        }
    }
    proof {
        assert(spec_groups(rest@, Seq::<Clause>::empty()));
        assert(clauses@ + Seq::<Clause>::empty() =~= clauses@);
    }
    Some(AST::Fn { pos, clauses })
}

/// When the first `run` items after the head are statements and the next
/// one, if any, is a clause, the statement run is exactly `run`.
proof fn lemma_stmt_run_exact(items: Seq<BlockItem>, run: int)
    requires
        0 <= run <= items.len() - 1,
        forall|j: int| 0 <= j < run ==> (#[trigger] items[1 + j]) is Stmt,
        1 + run == items.len() || items[1 + run] is Clause,
    ensures
        spec_stmt_run(items, 1) == run,
{
    lemma_stmt_run_from(items, 1, run);
}

/// The statement run from `from` is `n` when `n` statements stand there
/// and the next item, if any, is a clause.
proof fn lemma_stmt_run_from(items: Seq<BlockItem>, from: int, n: int)
    requires
        1 <= from,
        0 <= n,
        from + n <= items.len(),
        forall|j: int| 0 <= j < n ==> (#[trigger] items[from + j]) is Stmt,
        from + n == items.len() || items[from + n] is Clause,
    ensures
        spec_stmt_run(items, from) == n,
    decreases n,
{
    if n == 0 {
    } else {
        assert(items[from + 0] is Stmt);
        assert forall|j: int| 0 <= j < n - 1 implies (#[trigger] items[from + 1 + j]) is Stmt by {
            assert(items[from + (j + 1)] is Stmt);
        }
        lemma_stmt_run_from(items, from + 1, n - 1);
    }
}

impl AST {
    /// An expression equivalent to an `@if`: apply a two-clause function
    /// to the condition. The first clause binds the scrutinee and yields
    /// the then-branch; the second guards on the true constant and yields
    /// the else-branch.
    pub fn new_if(pos: SrcPos, cond: AST, then: AST, els: AST) -> (r: AST)
        ensures
            r matches AST::App { pos: p, op, args } && p == pos && args@ =~= seq![cond] && ((*op)
                matches AST::Fn { pos: pf, clauses } && pf == pos && clauses@.len() == 2 && {
                let c1 = clauses@[0];
                let c2 = clauses@[1];
                &&& c1.pos == then.spec_pos()
                &&& c1.params@.len() == 1
                &&& c1.params@[0].key() == (seq!['_'], 0int)
                &&& (c1.cond matches AST::Var(v) && v.pos == pos && (v.name matches VarRef::Global(
                    n,
                ) && n.key() == (seq!['_'], 0int)))
                &&& c1.body@ =~= seq![Stmt::Expr(then)]
                &&& c2.pos == els.spec_pos()
                &&& c2.params@.len() == 1
                &&& c2.params@[0].key() == (seq!['_'], 0int)
                &&& c2.cond == (AST::Const { pos, val: ConstVal::Bool(true) })
                &&& c2.body@ =~= seq![Stmt::Expr(els)]
            }),
    {
        let tpos = then.pos();
        let epos = els.pos();
        let then_clause = Clause {
            pos: tpos,
            params: vec![Name { base: underscore(), id: 0 }],
            cond: AST::Var(Var { pos, name: VarRef::Global(Name { base: underscore(), id: 0 }) }),
            body: vec![Stmt::Expr(then)],
        };
        let else_clause = Clause {
            pos: epos,
            params: vec![Name { base: underscore(), id: 0 }],
            cond: AST::Const { pos, val: ConstVal::Bool(true) },
            body: vec![Stmt::Expr(els)],
        };
        AST::App {
            pos,
            op: Box::new(AST::Fn { pos, clauses: vec![then_clause, else_clause] }),
            args: vec![cond],
        }
    }
}

/// The placeholder parameter's spelling.
fn underscore() -> (r: String)
    ensures
        r@ =~= seq!['_'],
{
    proof {
        reveal_strlit("_");
    }
    String::from_str("_")
}

} // verus!

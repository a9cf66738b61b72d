//! The closure-conversion pass: lexical scope resolution, renaming, and
//! lifting of nested functions to top-level procedures with explicit
//! free-variable lists.
//!
//! The environment is a stack of frames, each tagged as a function frame
//! (parameters: the boundary across which references become clovers) or a
//! block frame (local definitions: a scope, but transparent for the
//! classification). Reference resolution walks the frames outward: a hit
//! before any function boundary is crossed is a local, a hit after is a
//! clover, and a miss is a global.

use vstd::prelude::*;

use crate::ast;
use crate::ast::{ConstVal, Name, SrcPos, Var, VarRef};

verus! {

/// One rename entry: the source name and the fresh name it became.
pub struct Binding {
    pub from: Name,
    pub to: Name,
}

/// One scope frame: its bindings, tagged function or block.
pub struct Frame {
    pub is_fun: bool,
    pub bindings: Vec<Binding>,
}

/// The environment: a stack of frames, innermost last.
pub struct Env {
    pub frames: Vec<Frame>,
}

/// The newest binding of `k` in the frame, if any.
pub open spec fn spec_frame_lookup(bs: Seq<Binding>, k: (Seq<char>, int)) -> Option<Name>
    decreases bs.len(),
{
    if bs.len() == 0 {
        None
    } else if bs.last().from.key() == k {
        Some(bs.last().to)
    } else {
        spec_frame_lookup(bs.drop_last(), k)
    }
}

/// Resolution from frame `i` inward-out: a hit classifies as a clover
/// exactly when a function frame was crossed on the way; the innermost
/// frame itself is never "crossed".
pub open spec fn spec_resolve_from(frames: Seq<Frame>, i: int, crossed: bool, k: (Seq<char>, int)) -> Option<
    (Name, bool),
>
    decreases i + 1,
{
    if i < 0 {
        None
    } else {
        match spec_frame_lookup(frames[i].bindings@, k) {
            Some(n) => Some((n, crossed)),
            None => spec_resolve_from(frames, i - 1, crossed || frames[i].is_fun, k),
        }
    }
}

impl Env {
    /// The empty environment.
    pub fn new() -> (r: Env)
        ensures
            r.frames@.len() == 0,
    {
        Env { frames: Vec::new() }
    }

    /// Extend the environment with a function frame: a clause boundary.
    pub fn clause(&mut self, bindings: Vec<Binding>)
        ensures
            final(self).frames@ == old(self).frames@.push(Frame { is_fun: true, bindings }),
    {
        self.frames.push(Frame { is_fun: true, bindings });
    }

    /// Extend the environment with a block frame: a transparent scope.
    pub fn block(&mut self, bindings: Vec<Binding>)
        ensures
            final(self).frames@ == old(self).frames@.push(Frame { is_fun: false, bindings }),
    {
        self.frames.push(Frame { is_fun: false, bindings });
    }

    /// Drop the innermost frame.
    pub fn pop(&mut self) -> (r: Frame)
        requires
            old(self).frames@.len() > 0,
        ensures
            final(self).frames@ == old(self).frames@.drop_last(),
            r == old(self).frames@.last(),
    {
        let got = self.frames.pop();
        match got {
            Some(f) => f,
            None => {
                proof {
                    assert(false);
                }
                Frame { is_fun: false, bindings: Vec::new() }
            },
        }
    }

    /// The innermost frame's bindings.
    pub fn bindings(&self) -> (r: &Vec<Binding>)
        requires
            self.frames@.len() > 0,
        ensures
            r@ == self.frames@.last().bindings@,
    {
        let i = self.frames.len() - 1;
        &self.frames[i].bindings
    }

    /// Resolve a symbol: a hit in the innermost frames before any function
    /// boundary is a local under its renamed name, a hit beyond a function
    /// boundary a clover, and a miss a global under the original name.
    pub fn resolve(&self, name: &Name) -> (r: VarRef)
        ensures
            match spec_resolve_from(
                self.frames@,
                self.frames@.len() - 1,
                false,
                name.key(),
            ) {
                None => r matches VarRef::Global(n) && n.key() == name.key(),
                Some((m, crossed)) => {
                    if crossed {
                        r matches VarRef::Clover(n) && n.key() == m.key()
                    } else {
                        r matches VarRef::Local(n) && n.key() == m.key()
                    }
                },
            },
    {
        let mut i = self.frames.len();
        let mut crossed = false;
        while i > 0
            invariant
                i <= self.frames@.len(),
                spec_resolve_from(self.frames@, self.frames@.len() - 1, false, name.key())
                    == spec_resolve_from(self.frames@, i - 1, crossed, name.key()),
            decreases i,
        {
            let frame = &self.frames[i - 1];
            let hit = frame_lookup(&frame.bindings, name);
            match hit {
                Some(n) => {
                    if crossed {
                        return VarRef::Clover(n);
                    } else {
                        return VarRef::Local(n);
                    }
                },
                None => {
                    crossed = crossed || frame.is_fun;
                },
            }
            i = i - 1;
        }
        VarRef::Global(name.duplicate())
    }

    /// The renamed name of a symbol, searched through every frame, clover
    /// boundaries notwithstanding.
    pub fn resolve_str(&self, name: &Name) -> (r: Option<Name>)
        ensures
            match spec_resolve_from(
                self.frames@,
                self.frames@.len() - 1,
                false,
                name.key(),
            ) {
                None => r is None,
                Some((m, _)) => r matches Some(n) && n.key() == m.key(),
            },
    {
        match self.resolve(name) {
            VarRef::Local(n) => Some(n),
            VarRef::Clover(n) => Some(n),
            VarRef::Global(_) => None,
        }
    }
}

/// Look a symbol up in one frame, newest binding first.
fn frame_lookup(bs: &Vec<Binding>, name: &Name) -> (r: Option<Name>)
    ensures
        match spec_frame_lookup(bs@, name.key()) {
            None => r is None,
            Some(m) => r matches Some(n) && n.key() == m.key(),
        },
{
    proof {
        assert(bs@.subrange(0, bs@.len() as int) =~= bs@);
    }
    let mut i = bs.len();
    while i > 0
        invariant
            i <= bs@.len(),
            spec_frame_lookup(bs@, name.key()) == spec_frame_lookup(
                bs@.subrange(0, i as int),
                name.key(),
            ),
        decreases i,
    {
        let b = &bs[i - 1];
        proof {
            assert(bs@.subrange(0, i as int).last() == bs@[i - 1]);
            assert(bs@.subrange(0, i as int).drop_last() =~= bs@.subrange(0, i - 1));
        }
        if b.from.same(name) {
            return Some(b.to.duplicate());
        }
        i = i - 1;
    }
    None
}

/// A flattened function: its position, free variables, and clauses grouped
/// by arity.
pub struct Fun {
    pub pos: SrcPos,
    pub freevars: Vec<Name>,
    pub clauses: Vec<ArityGroup>,
}

/// The clauses of one arity.
pub struct ArityGroup {
    pub arity: usize,
    pub clauses: Vec<Clause>,
}

/// A flattened clause: renamed parameters (a synthetic self parameter
/// first), guard and body.
pub struct Clause {
    pub pos: SrcPos,
    pub params: Vec<Name>,
    pub cond: Expr,
    pub body: Vec<Stmt>,
}

/// A closure expression: the lifted procedure's name and its free
/// variables.
pub struct Closure {
    pub pos: SrcPos,
    pub fun: Name,
    pub freevars: Vec<Name>,
}

/// A flattened expression: function expressions have become closures.
pub enum Expr {
    Block { pos: SrcPos, stmts: Vec<Stmt> },
    Closure(Closure),
    App { pos: SrcPos, op: Box<Expr>, args: Vec<Expr> },
    Var(Var),
    Const { pos: SrcPos, val: ConstVal },
}

/// A flattened statement.
pub enum Stmt {
    Def { name: Name, val: Expr },
    Expr(Expr),
}

/// A lifted procedure under its fresh name.
pub struct Proc {
    pub name: Name,
    pub fun: Fun,
}

/// The flat program: the lifted procedures and the residual expression.
pub struct FAST {
    pub procs: Vec<Proc>,
    pub expr: Expr,
}

impl FAST {
    /// Assemble a flat program.
    pub fn new(procs: Vec<Proc>, expr: Expr) -> (r: FAST)
        ensures
            r.procs == procs,
            r.expr == expr,
    {
        FAST { procs, expr }
    }
}

/// The input carries no primitive applications: the pass does not lower
/// them.
pub open spec fn no_primapp(a: ast::AST) -> bool
    decreases a,
{
    match a {
        ast::AST::Block { stmts, .. } => forall|i: int|
            0 <= i < stmts@.len() ==> no_primapp_stmt(#[trigger] stmts@[i]),
        ast::AST::Fn { clauses, .. } => forall|i: int|
            0 <= i < clauses@.len() ==> no_primapp_clause(#[trigger] clauses@[i]),
        ast::AST::App { op, args, .. } => no_primapp(*op) && forall|i: int|
            0 <= i < args@.len() ==> no_primapp(#[trigger] args@[i]),
        ast::AST::PrimApp(..) => false,
        ast::AST::Var(..) => true,
        ast::AST::Const { .. } => true,
    }
}

/// The statement carries no primitive applications.
pub open spec fn no_primapp_stmt(s: ast::Stmt) -> bool
    decreases s,
{
    match s {
        ast::Stmt::Def { val, .. } => no_primapp(val),
        ast::Stmt::Expr(e) => no_primapp(e),
    }
}

/// The clause carries no primitive applications.
pub open spec fn no_primapp_clause(c: ast::Clause) -> bool
    decreases c,
{
    no_primapp(c.cond) && forall|i: int|
        0 <= i < c.body@.len() ==> no_primapp_stmt(#[trigger] c.body@[i])
}

/// The first table is kept, entry for entry, as a prefix of the second.
pub open spec fn procs_extended(a: Seq<Proc>, b: Seq<Proc>) -> bool {
    b.len() >= a.len() && (forall|i: int| 0 <= i < a.len() ==> #[trigger] b[i] == a[i])
}

/// The expression holds no function expression (and no primitive
/// application): flattening it lifts no procedure.
pub open spec fn spec_fn_free(a: ast::AST) -> bool
    decreases a,
{
    match a {
        ast::AST::Block { stmts, .. } => forall|i: int|
            0 <= i < stmts@.len() ==> spec_fn_free_stmt(#[trigger] stmts@[i]),
        ast::AST::Fn { .. } => false,
        ast::AST::App { op, args, .. } => spec_fn_free(*op) && (forall|i: int|
            0 <= i < args@.len() ==> spec_fn_free(#[trigger] args@[i])),
        ast::AST::PrimApp(..) => false,
        ast::AST::Var(..) => true,
        ast::AST::Const { .. } => true,
    }
}

/// The statement holds no function expression.
pub open spec fn spec_fn_free_stmt(s: ast::Stmt) -> bool
    decreases s,
{
    match s {
        ast::Stmt::Def { val, .. } => spec_fn_free(val),
        ast::Stmt::Expr(e) => spec_fn_free(e),
    }
}

/// The set of keys a list of names carries.
pub open spec fn names_keys(ns: Seq<Name>) -> Set<(Seq<char>, int)> {
    Set::new(
        |k: (Seq<char>, int)|
            exists|i: int| 0 <= i < ns.len() && (#[trigger] ns[i]).key() == k,
    )
}

/// The renamed keys one frame binds.
pub open spec fn frame_to_keys(fr: Frame) -> Set<(Seq<char>, int)> {
    Set::new(
        |k: (Seq<char>, int)|
            exists|b: int| 0 <= b < fr.bindings@.len() && (#[trigger] fr.bindings@[b]).to.key()
                == k,
    )
}

/// The renamed keys the whole environment binds.
pub open spec fn env_to_keys(frames: Seq<Frame>) -> Set<(Seq<char>, int)> {
    Set::new(
        |k: (Seq<char>, int)|
            exists|i: int| 0 <= i < frames.len() && #[trigger] frame_to_keys(frames[i]).contains(
                k,
            ),
    )
}

/// The renamed keys a reference can resolve to as a clover: keys of frames
/// with a function frame somewhere inside them.
pub open spec fn env_clover_keys(frames: Seq<Frame>) -> Set<(Seq<char>, int)> {
    Set::new(
        |k: (Seq<char>, int)|
            exists|i: int|
                0 <= i < frames.len() && #[trigger] frame_to_keys(frames[i]).contains(k) && (
                exists|j: int| i < j < frames.len() && (#[trigger] frames[j]).is_fun),
    )
}

/// Every renamed stamp in the environment lies below the counter (or the
/// counter has saturated, after which nothing is promised).
pub open spec fn env_ids_ok(frames: Seq<Frame>, c: int) -> bool {
    c == usize::MAX as int || forall|i: int, b: int|
        0 <= i < frames.len() && 0 <= b < frames[i].bindings@.len() ==> (
        #[trigger] frames[i].bindings@[b]).to.id < c
}

/// Every clover occurrence in the expression names a key of `s`.
pub open spec fn expr_clovers_in(e: Expr, s: Set<(Seq<char>, int)>) -> bool
    decreases e,
{
    match e {
        Expr::Block { stmts, .. } => forall|i: int|
            0 <= i < stmts@.len() ==> stmt_clovers_in(#[trigger] stmts@[i], s),
        Expr::Closure(_) => true,
        Expr::App { op, args, .. } => expr_clovers_in(*op, s) && (forall|i: int|
            0 <= i < args@.len() ==> expr_clovers_in(#[trigger] args@[i], s)),
        Expr::Var(v) => v.name is Clover ==> s.contains(v.name.spec_name().key()),
        Expr::Const { .. } => true,
    }
}

/// Every clover occurrence in the statement names a key of `s`.
pub open spec fn stmt_clovers_in(st: Stmt, s: Set<(Seq<char>, int)>) -> bool
    decreases st,
{
    match st {
        Stmt::Def { val, .. } => expr_clovers_in(val, s),
        Stmt::Expr(e) => expr_clovers_in(e, s),
    }
}

/// Every clover occurrence in the clause names a key of `s`.
pub open spec fn clause_clovers_in(c: Clause, s: Set<(Seq<char>, int)>) -> bool
    decreases c,
{
    expr_clovers_in(c.cond, s) && (forall|i: int|
        0 <= i < c.body@.len() ==> stmt_clovers_in(#[trigger] c.body@[i], s))
}

/// Every clover occurrence in the function's clauses names a key of `s`.
pub open spec fn fun_clovers_in(f: Fun, s: Set<(Seq<char>, int)>) -> bool
    decreases f,
{
    forall|g: int, i: int|
        0 <= g < f.clauses@.len() && 0 <= i < f.clauses@[g].clauses@.len()
            ==> clause_clovers_in(#[trigger] f.clauses@[g].clauses@[i], s)
}

/// Every registered procedure's name stamp lies below the counter (or the
/// counter has saturated).
pub open spec fn procs_ids_ok(ps: Seq<Proc>, c: int) -> bool {
    forall|p: int| 0 <= p < ps.len() ==> (#[trigger] ps[p]).name.id < c || c == usize::MAX as int
}

/// Procedure names are pairwise distinct: stamps strictly increase in
/// registration order, except between stamps pinned at saturation.
pub open spec fn procs_names_ok(ps: Seq<Proc>) -> bool {
    forall|p1: int, p2: int|
        0 <= p1 < p2 < ps.len() ==> (#[trigger] ps[p1]).name.id < (#[trigger] ps[p2]).name.id || ps[p2].name.id
            == usize::MAX
}

/// Every procedure the pass lifts, whose name stamp is unsaturated,
/// satisfies the flatten-correctness law.
pub open spec fn new_procs_ok(pre: Seq<Proc>, post: Seq<Proc>) -> bool {
    forall|p: int|
        pre.len() <= p < post.len() && (#[trigger] post[p]).name.id < usize::MAX ==> proc_ok(
            post[p],
        )
}

/// An empty name list carries no keys.
pub proof fn lemma_empty_keys(ns: Seq<Name>)
    requires
        ns.len() == 0,
    ensures
        forall|k: (Seq<char>, int)| !(#[trigger] names_keys(ns).contains(k)),
        forall|s: Set<(Seq<char>, int)>| #[trigger] names_keys(ns).subset_of(s),
{
    assert forall|k: (Seq<char>, int)| !(#[trigger] names_keys(ns).contains(k)) by {
        if names_keys(ns).contains(k) {
            let i = choose|i: int| 0 <= i < ns.len() && (#[trigger] ns[i]).key() == k;
        }
    }
}

/// Lists with the same keys position by position carry the same key set.
pub proof fn lemma_same_keys(a: Seq<Name>, b: Seq<Name>)
    requires
        a.len() == b.len(),
        forall|i: int| 0 <= i < a.len() ==> (#[trigger] a[i]).key() == b[i].key(),
    ensures
        names_keys(a) == names_keys(b),
{
    assert forall|k: (Seq<char>, int)|
        names_keys(a).contains(k) implies names_keys(b).contains(k) by {
        let i = choose|i: int| 0 <= i < a.len() && (#[trigger] a[i]).key() == k;
        assert(b[i].key() == k);
    }
    assert forall|k: (Seq<char>, int)|
        names_keys(b).contains(k) implies names_keys(a).contains(k) by {
        let i = choose|i: int| 0 <= i < b.len() && (#[trigger] b[i]).key() == k;
        assert(a[i].key() == k);
    }
    assert(names_keys(a) =~= names_keys(b));
}

/// The environment-stamp bound is monotone in the counter.
pub proof fn lemma_env_ids_mono(frames: Seq<Frame>, c1: int, c2: int)
    requires
        env_ids_ok(frames, c1),
        c1 <= c2,
        c2 <= usize::MAX as int,
    ensures
        env_ids_ok(frames, c2),
{
    if c1 == usize::MAX as int {
    } else if c2 == usize::MAX as int {
    } else {
    }
}

/// Pushing a frame of fresh bindings keeps the stamp bound.
pub proof fn lemma_env_ids_push(frames: Seq<Frame>, fr: Frame, c0: int, c: int)
    requires
        env_ids_ok(frames, c0),
        c0 <= c,
        c <= usize::MAX as int,
        forall|b: int|
            0 <= b < fr.bindings@.len() ==> ((#[trigger] fr.bindings@[b]).to.id < c || c
                == usize::MAX as int),
    ensures
        env_ids_ok(frames.push(fr), c),
{
    if c != usize::MAX as int {
        let f2 = frames.push(fr);
        assert forall|i: int, b: int|
            0 <= i < f2.len() && 0 <= b < f2[i].bindings@.len() implies (
            #[trigger] f2[i].bindings@[b]).to.id < c by {
            if i < frames.len() {
                assert(f2[i] == frames[i]);
            } else {
                assert(f2[i] == fr);
            }
        }
    }
}

/// A clover-reachable key is a key the environment binds.
pub proof fn lemma_clover_is_to_key(frames: Seq<Frame>, k: (Seq<char>, int))
    requires
        env_clover_keys(frames).contains(k),
    ensures
        env_to_keys(frames).contains(k),
{
    let i = choose|i: int|
        0 <= i < frames.len() && #[trigger] frame_to_keys(frames[i]).contains(k) && (
        exists|j: int| i < j < frames.len() && (#[trigger] frames[j]).is_fun);
}

/// The flatten-correctness law of one lifted procedure: every clover in
/// its clauses stands in its free-variable list.
pub open spec fn proc_ok(p: Proc) -> bool {
    fun_clovers_in(p.fun, names_keys(p.fun.freevars@))
}

/// Clover containment combines: what lies in `a` and in `b` lies in any
/// `c` holding their common keys (with `b == a` this is monotonicity).
pub proof fn lemma_expr_clovers_combine(
    e: Expr,
    a: Set<(Seq<char>, int)>,
    b: Set<(Seq<char>, int)>,
    c: Set<(Seq<char>, int)>,
)
    requires
        expr_clovers_in(e, a),
        expr_clovers_in(e, b),
        forall|k: (Seq<char>, int)| a.contains(k) && b.contains(k) ==> c.contains(k),
    ensures
        expr_clovers_in(e, c),
    decreases e,
{
    match e {
        Expr::Block { stmts, .. } => {
            assert forall|i: int| 0 <= i < stmts@.len() implies stmt_clovers_in(
                #[trigger] stmts@[i],
                c,
            ) by {
                lemma_stmt_clovers_combine(stmts@[i], a, b, c);
            }
        },
        Expr::App { op, args, .. } => {
            lemma_expr_clovers_combine(*op, a, b, c);
            assert forall|i: int| 0 <= i < args@.len() implies expr_clovers_in(
                #[trigger] args@[i],
                c,
            ) by {
                lemma_expr_clovers_combine(args@[i], a, b, c);
            }
        },
        _ => {},
    }
}

/// As `lemma_expr_clovers_combine`, for statements.
pub proof fn lemma_stmt_clovers_combine(
    st: Stmt,
    a: Set<(Seq<char>, int)>,
    b: Set<(Seq<char>, int)>,
    c: Set<(Seq<char>, int)>,
)
    requires
        stmt_clovers_in(st, a),
        stmt_clovers_in(st, b),
        forall|k: (Seq<char>, int)| a.contains(k) && b.contains(k) ==> c.contains(k),
    ensures
        stmt_clovers_in(st, c),
    decreases st,
{
    match st {
        Stmt::Def { val, .. } => lemma_expr_clovers_combine(val, a, b, c),
        Stmt::Expr(e) => lemma_expr_clovers_combine(e, a, b, c),
    }
}

/// As `lemma_expr_clovers_combine`, for clauses.
pub proof fn lemma_clause_clovers_combine(
    cl: Clause,
    a: Set<(Seq<char>, int)>,
    b: Set<(Seq<char>, int)>,
    c: Set<(Seq<char>, int)>,
)
    requires
        clause_clovers_in(cl, a),
        clause_clovers_in(cl, b),
        forall|k: (Seq<char>, int)| a.contains(k) && b.contains(k) ==> c.contains(k),
    ensures
        clause_clovers_in(cl, c),
    decreases cl,
{
    lemma_expr_clovers_combine(cl.cond, a, b, c);
    assert forall|i: int| 0 <= i < cl.body@.len() implies stmt_clovers_in(
        #[trigger] cl.body@[i],
        c,
    ) by {
        lemma_stmt_clovers_combine(cl.body@[i], a, b, c);
    }
}

/// Pushing a block frame leaves the clover-reachable keys unchanged: the
/// new frame has no function frame inside it, and the old frames gained
/// none.
pub proof fn lemma_clover_keys_push_block(frames: Seq<Frame>, fr: Frame)
    requires
        !fr.is_fun,
    ensures
        env_clover_keys(frames.push(fr)) == env_clover_keys(frames),
{
    let f2 = frames.push(fr);
    assert forall|k: (Seq<char>, int)|
        env_clover_keys(f2).contains(k) implies env_clover_keys(frames).contains(k) by {
        let i = choose|i: int|
            0 <= i < f2.len() && #[trigger] frame_to_keys(f2[i]).contains(k) && (exists|j: int|
                i < j < f2.len() && (#[trigger] f2[j]).is_fun);
        let j = choose|j: int| i < j < f2.len() && (#[trigger] f2[j]).is_fun;
        assert(j < frames.len());
        assert(i < frames.len());
        assert(f2[i] == frames[i] && f2[j] == frames[j]);
    }
    assert forall|k: (Seq<char>, int)|
        env_clover_keys(frames).contains(k) implies env_clover_keys(f2).contains(k) by {
        let i = choose|i: int|
            0 <= i < frames.len() && #[trigger] frame_to_keys(frames[i]).contains(k) && (
            exists|j: int| i < j < frames.len() && (#[trigger] frames[j]).is_fun);
        let j = choose|j: int| i < j < frames.len() && (#[trigger] frames[j]).is_fun;
        assert(f2[i] == frames[i] && f2[j] == frames[j]);
        assert(frame_to_keys(f2[i]).contains(k));
    }
    assert(env_clover_keys(f2) =~= env_clover_keys(frames));
}

/// Pushing a function frame makes every key of the old frames
/// clover-reachable, and nothing else: the new frame's own keys have no
/// function frame inside them.
pub proof fn lemma_clover_keys_push_fun(frames: Seq<Frame>, fr: Frame)
    requires
        fr.is_fun,
    ensures
        env_clover_keys(frames.push(fr)) == env_to_keys(frames),
{
    let f2 = frames.push(fr);
    assert forall|k: (Seq<char>, int)|
        env_clover_keys(f2).contains(k) implies env_to_keys(frames).contains(k) by {
        let i = choose|i: int|
            0 <= i < f2.len() && #[trigger] frame_to_keys(f2[i]).contains(k) && (exists|j: int|
                i < j < f2.len() && (#[trigger] f2[j]).is_fun);
        let j = choose|j: int| i < j < f2.len() && (#[trigger] f2[j]).is_fun;
        assert(i < frames.len());
        assert(f2[i] == frames[i]);
        assert(frame_to_keys(frames[i]).contains(k));
    }
    assert forall|k: (Seq<char>, int)|
        env_to_keys(frames).contains(k) implies env_clover_keys(f2).contains(k) by {
        let i = choose|i: int|
            0 <= i < frames.len() && #[trigger] frame_to_keys(frames[i]).contains(k);
        assert(f2[i] == frames[i]);
        assert(frame_to_keys(f2[i]).contains(k));
        assert(i < frames.len() < f2.len() && f2[frames.len() as int].is_fun);
    }
    assert(env_clover_keys(f2) =~= env_to_keys(frames));
}

/// Pushing a frame adds exactly its keys to the environment's keys.
pub proof fn lemma_to_keys_push(frames: Seq<Frame>, fr: Frame)
    ensures
        env_to_keys(frames.push(fr)) == env_to_keys(frames).union(frame_to_keys(fr)),
{
    let f2 = frames.push(fr);
    assert forall|k: (Seq<char>, int)|
        env_to_keys(f2).contains(k) implies env_to_keys(frames).union(frame_to_keys(fr)).contains(
        k,
    ) by {
        let i = choose|i: int| 0 <= i < f2.len() && #[trigger] frame_to_keys(f2[i]).contains(k);
        if i < frames.len() {
            assert(f2[i] == frames[i]);
            assert(frame_to_keys(frames[i]).contains(k));
        } else {
            assert(f2[i] == fr);
        }
    }
    assert forall|k: (Seq<char>, int)|
        env_to_keys(frames).union(frame_to_keys(fr)).contains(k) implies env_to_keys(f2).contains(
        k,
    ) by {
        if env_to_keys(frames).contains(k) {
            let i = choose|i: int|
                0 <= i < frames.len() && #[trigger] frame_to_keys(frames[i]).contains(k);
            assert(frame_to_keys(f2[i]).contains(k));
        } else {
            assert(f2[frames.len() as int] == fr);
            assert(frame_to_keys(f2[frames.len() as int]).contains(k));
        }
    }
    assert(env_to_keys(f2) =~= env_to_keys(frames).union(frame_to_keys(fr)));
}

/// A frame-lookup hit returns a name one of the frame's bindings renamed
/// to.
pub proof fn lemma_frame_lookup_in(bs: Seq<Binding>, k: (Seq<char>, int))
    requires
        spec_frame_lookup(bs, k) is Some,
    ensures
        exists|b: int|
            0 <= b < bs.len() && (#[trigger] bs[b]).to == spec_frame_lookup(bs, k)->Some_0,
    decreases bs.len(),
{
    if bs.len() > 0 && bs.last().from.key() != k {
        lemma_frame_lookup_in(bs.drop_last(), k);
        let b = choose|b: int|
            0 <= b < bs.drop_last().len() && (#[trigger] bs.drop_last()[b]).to
                == spec_frame_lookup(bs.drop_last(), k)->Some_0;
        assert(bs[b].to == spec_frame_lookup(bs, k)->Some_0);
    } else if bs.len() > 0 {
        assert(bs[bs.len() - 1].to == spec_frame_lookup(bs, k)->Some_0);
    }
}

/// A resolution hit returns a name the environment binds.
pub proof fn lemma_resolve_in(frames: Seq<Frame>, i: int, cr: bool, k: (Seq<char>, int))
    requires
        spec_resolve_from(frames, i, cr, k) is Some,
        i < frames.len(),
    ensures
        env_to_keys(frames).contains(spec_resolve_from(frames, i, cr, k)->Some_0.0.key()),
    decreases i + 1,
{
    if i >= 0 {
        if spec_frame_lookup(frames[i].bindings@, k) is Some {
            lemma_frame_lookup_in(frames[i].bindings@, k);
            assert(frame_to_keys(frames[i]).contains(
                spec_resolve_from(frames, i, cr, k)->Some_0.0.key(),
            ));
        } else {
            lemma_resolve_in(frames, i - 1, cr || frames[i].is_fun, k);
        }
    }
}

/// A clover hit returns a name of a frame with a function frame inside it.
pub proof fn lemma_resolve_clover(frames: Seq<Frame>, i: int, cr: bool, k: (Seq<char>, int))
    requires
        spec_resolve_from(frames, i, cr, k) matches Some((m, crossed)) && crossed,
        i < frames.len(),
        cr ==> exists|j: int| i < j < frames.len() && (#[trigger] frames[j]).is_fun,
    ensures
        env_clover_keys(frames).contains(spec_resolve_from(frames, i, cr, k)->Some_0.0.key()),
    decreases i + 1,
{
    if i >= 0 {
        if spec_frame_lookup(frames[i].bindings@, k) is Some {
            lemma_frame_lookup_in(frames[i].bindings@, k);
            assert(frame_to_keys(frames[i]).contains(
                spec_resolve_from(frames, i, cr, k)->Some_0.0.key(),
            ));
            assert(cr);
        } else {
            if frames[i].is_fun {
                assert(exists|j: int|
                    i - 1 < j < frames.len() && (#[trigger] frames[j]).is_fun) by {
                    assert(frames[i].is_fun && i - 1 < i < frames.len());
                }
            }
            lemma_resolve_clover(frames, i - 1, cr || frames[i].is_fun, k);
        }
    }
}

/// Under an unsaturated counter, every key the environment binds has a
/// stamp below the counter.
pub proof fn lemma_env_key_id(frames: Seq<Frame>, c: int, k: (Seq<char>, int))
    requires
        env_ids_ok(frames, c),
        c < usize::MAX as int,
        env_to_keys(frames).contains(k),
    ensures
        k.1 < c,
{
    let i = choose|i: int| 0 <= i < frames.len() && #[trigger] frame_to_keys(frames[i]).contains(k);
    let b = choose|b: int|
        0 <= b < frames[i].bindings@.len() && (#[trigger] frames[i].bindings@[b]).to.key() == k;
}

/// The pass state: the lifted procedures and the monotonic rename counter.
pub struct Flatten {
    pub procs: Vec<Proc>,
    pub counter: usize,
}

impl Flatten {
    /// A fresh pass: no procedures, the counter starting past the source
    /// stamp.
    pub fn new() -> (r: Flatten)
        ensures
            r.procs@.len() == 0,
            r.counter == 1,
    {
        Flatten { procs: Vec::new(), counter: 1 }
    }

    /// A fresh name for `name`: the same spelling under the next stamp.
    /// The counter saturates at the machine limit; until then every
    /// renamed name is distinct from every earlier one.
    pub fn rename(&mut self, name: &Name) -> (r: Name)
        ensures
            r.base@ == name.base@,
            r.id == old(self).counter,
            final(self).counter >= old(self).counter,
            old(self).counter < usize::MAX ==> final(self).counter == old(self).counter + 1,
            final(self).procs == old(self).procs,
    {
        let id = self.counter;
        if self.counter < usize::MAX {
            self.counter = self.counter + 1;
        }
        Name { base: name.base.clone(), id }
    }

    /// Register a lifted procedure under a fresh name and hand the name
    /// back.
    fn add_proc(&mut self, fun: Fun) -> (r: Name)
        requires
            procs_ids_ok(old(self).procs@, old(self).counter as int),
            procs_names_ok(old(self).procs@),
        ensures
            procs_ids_ok(final(self).procs@, final(self).counter as int),
            procs_names_ok(final(self).procs@),
            final(self).counter >= old(self).counter,
            r.id == old(self).counter,
            r.base@ =~= seq!['f'],
            final(self).procs@.len() == old(self).procs@.len() + 1,
            forall|i: int|
                0 <= i < old(self).procs@.len() ==> #[trigger] final(self).procs@[i] == old(self).procs@[i],
            final(self).procs@.last().name.key() == r.key(),
            final(self).procs@.last().fun == fun,
    {
        let name = Name { base: fresh_f(), id: self.counter };
        if self.counter < usize::MAX {
            self.counter = self.counter + 1;
        }
        let entry = Proc { name: name.duplicate(), fun };
        self.procs.push(entry);
        name
    }

    /// The renamed bindings a block's definitions introduce: fresh stamps
    /// at or above the counter's entry value.
    fn block_bindings(&mut self, stmts: &Vec<ast::Stmt>) -> (r: Vec<Binding>)
        ensures
            final(self).counter >= old(self).counter,
            final(self).procs == old(self).procs,
            forall|b: int|
                0 <= b < r@.len() ==> (#[trigger] r@[b]).to.id >= old(self).counter && (r@[b].to.id
                    < final(self).counter || final(self).counter == usize::MAX),
    {
        let mut bindings: Vec<Binding> = Vec::new();
        let mut i: usize = 0;
        while i < stmts.len()
            invariant
                self.counter >= old(self).counter,
                self.procs == old(self).procs,
                forall|b: int|
                    0 <= b < bindings@.len() ==> (#[trigger] bindings@[b]).to.id >= old(
                        self,
                    ).counter && (bindings@[b].to.id < self.counter || self.counter == usize::MAX),
            decreases stmts@.len() - i,
        {
            match &stmts[i] {
                ast::Stmt::Def { name, .. } => {
                    let to = self.rename(name);
                    bindings.push(Binding { from: name.duplicate(), to });
                },
                ast::Stmt::Expr(..) => {},
            }
            i += 1;
        }
        bindings
    }

    /// The renamed bindings a parameter list introduces: fresh stamps at
    /// or above the counter's entry value.
    fn param_bindings(&mut self, params: &Vec<Name>) -> (r: Vec<Binding>)
        ensures
            final(self).counter >= old(self).counter,
            final(self).procs == old(self).procs,
            r@.len() == params@.len(),
            forall|b: int|
                0 <= b < r@.len() ==> (#[trigger] r@[b]).to.id >= old(self).counter && (r@[b].to.id
                    < final(self).counter || final(self).counter == usize::MAX),
            final(self).counter < usize::MAX ==> forall|b: int|
                0 <= b < r@.len() ==> (#[trigger] r@[b]).to.id == old(self).counter + b,
            final(self).counter < usize::MAX ==> final(self).counter == old(self).counter
                + params@.len(),
    {
        let mut bindings: Vec<Binding> = Vec::new();
        let mut i: usize = 0;
        while i < params.len()
            invariant
                i <= params@.len(),
                bindings@.len() == i,
                self.counter >= old(self).counter,
                self.procs == old(self).procs,
                forall|b: int|
                    0 <= b < bindings@.len() ==> (#[trigger] bindings@[b]).to.id >= old(
                        self,
                    ).counter && (bindings@[b].to.id < self.counter || self.counter == usize::MAX),
                self.counter < usize::MAX ==> self.counter == old(self).counter + i,
                self.counter < usize::MAX ==> forall|b: int|
                    0 <= b < bindings@.len() ==> (#[trigger] bindings@[b]).to.id == old(
                        self,
                    ).counter + b,
            decreases params@.len() - i,
        {
            let to = self.rename(&params[i]);
            bindings.push(Binding { from: params[i].duplicate(), to });
            i += 1;
        }
        bindings
    }
}

/// Add a name to a free-variable set, keeping it free of duplicates.
fn insert_freevar(fv: &mut Vec<Name>, n: Name)
    ensures
        names_keys(final(fv)@) == names_keys(old(fv)@).insert(n.key()),
{
    let mut i: usize = 0;
    while i < fv.len()
        invariant
            i <= fv@.len(),
            fv@ == old(fv)@,
        decreases fv@.len() - i,
    {
        if fv[i].same(&n) {
            proof {
                assert(names_keys(fv@).contains(n.key()));
                assert(names_keys(fv@) =~= names_keys(old(fv)@).insert(n.key()));
            }
            return ;
        }
        i += 1;
    }
    fv.push(n);
    proof {
        assert forall|k: (Seq<char>, int)|
            names_keys(fv@).contains(k) implies names_keys(old(fv)@).insert(n.key()).contains(
            k,
        ) by {
            let i2 = choose|i2: int| 0 <= i2 < fv@.len() && (#[trigger] fv@[i2]).key() == k;
            if i2 < fv@.len() - 1 {
                assert(old(fv)@[i2].key() == k);
            }
        }
        assert forall|k: (Seq<char>, int)|
            names_keys(old(fv)@).insert(n.key()).contains(k) implies names_keys(fv@).contains(
            k,
        ) by {
            if names_keys(old(fv)@).contains(k) {
                let i2 = choose|i2: int|
                    0 <= i2 < old(fv)@.len() && (#[trigger] old(fv)@[i2]).key() == k;
                assert(fv@[i2].key() == k);
            } else {
                assert(fv@[fv@.len() - 1].key() == k);
            }
        }
        assert(names_keys(fv@) =~= names_keys(old(fv)@).insert(n.key()));
    }
}

/// Merge a set of free variables into another.
fn merge_freevars(fv: &mut Vec<Name>, more: Vec<Name>)
    ensures
        names_keys(final(fv)@) == names_keys(old(fv)@).union(names_keys(more@)),
{
    let ghost orig = more@;
    let mut more = more;
    let ghost mut done: int = 0;
    while more.len() > 0
        invariant
            0 <= done <= orig.len(),
            more@ =~= orig.subrange(done, orig.len() as int),
            names_keys(fv@) == names_keys(old(fv)@).union(
                names_keys(orig.subrange(0, done)),
            ),
        decreases more@.len(),
    {
        let n = more.remove(0);
        proof {
            assert(n == orig[done]);
        }
        insert_freevar(fv, n);
        proof {
            done = done + 1;
            assert(more@ =~= orig.subrange(done, orig.len() as int));
            assert forall|k: (Seq<char>, int)|
                names_keys(orig.subrange(0, done)).contains(k) <==> (names_keys(
                orig.subrange(0, done - 1),
            ).contains(k) || k == orig[done - 1].key()) by {
                if names_keys(orig.subrange(0, done)).contains(k) {
                    let i2 = choose|i2: int|
                        0 <= i2 < done && (#[trigger] orig.subrange(0, done)[i2]).key() == k;
                    if i2 < done - 1 {
                        assert(orig.subrange(0, done - 1)[i2].key() == k);
                    }
                }
                if names_keys(orig.subrange(0, done - 1)).contains(k) {
                    let i2 = choose|i2: int|
                        0 <= i2 < done - 1 && (#[trigger] orig.subrange(0, done - 1)[i2]).key()
                            == k;
                    assert(orig.subrange(0, done)[i2].key() == k);
                }
                if k == orig[done - 1].key() {
                    assert(orig.subrange(0, done)[done - 1].key() == k);
                }
            }
            assert(names_keys(fv@) =~= names_keys(old(fv)@).union(
                names_keys(orig.subrange(0, done)),
            ));
        }
    }
    proof {
        assert(orig.subrange(0, orig.len() as int) =~= orig);
    }
}

/// Remove the names a frame's bindings introduced from a free-variable
/// set: what remains is exactly the unbound part.
#[verifier::rlimit(100)]
#[verifier::spinoff_prover]
fn remove_bindings(fv: &mut Vec<Name>, bindings: &Vec<Binding>)
    ensures
        forall|k: (Seq<char>, int)|
            names_keys(final(fv)@).contains(k) ==> names_keys(old(fv)@).contains(k) && !(
            #[trigger] frame_to_keys(Frame { is_fun: true, bindings: *bindings }).contains(k)),
        forall|k: (Seq<char>, int)|
            names_keys(old(fv)@).contains(k) && !(#[trigger] frame_to_keys(
                Frame { is_fun: true, bindings: *bindings },
            ).contains(k)) ==> names_keys(final(fv)@).contains(k),
        forall|k: (Seq<char>, int)|
            names_keys(final(fv)@).contains(k) ==> !(#[trigger] frame_to_keys(
                Frame { is_fun: false, bindings: *bindings },
            ).contains(k)),
    {
        let ghost bkeys = frame_to_keys(Frame { is_fun: true, bindings: *bindings });
        let mut kept: Vec<Name> = Vec::new();
        let mut k: usize = 0;
        while k < fv.len()
            invariant
                k <= fv@.len(),
                fv@ == old(fv)@,
                bkeys == frame_to_keys(Frame { is_fun: true, bindings: *bindings }),
                forall|i2: int|
                    0 <= i2 < kept@.len() ==> names_keys(old(fv)@).contains(
                        (#[trigger] kept@[i2]).key(),
                    ) && !bkeys.contains(kept@[i2].key()),
                forall|j: int|
                    0 <= j < k && !bkeys.contains((#[trigger] old(fv)@[j]).key())
                        ==> names_keys(kept@).contains(old(fv)@[j].key()),
            decreases fv@.len() - k,
        {
            let ghost kept0 = kept@;
            let n = fv[k].duplicate();
            let mut bound = false;
            let mut i: usize = 0;
            while i < bindings.len()
                invariant
                    i <= bindings@.len(),
                    n.key() == fv@[k as int].key(),
                    fv@ == old(fv)@,
                    k < fv@.len(),
                    bkeys == frame_to_keys(Frame { is_fun: true, bindings: *bindings }),
                    bound <==> exists|b: int|
                        0 <= b < i && (#[trigger] bindings@[b]).to.key() == n.key(),
                decreases bindings@.len() - i,
            {
                if bindings[i].to.same(&n) {
                    bound = true;
                }
                i += 1;
            }
            proof {
                assert(bound <==> bkeys.contains(n.key()));
            }
            if !bound {
                kept.push(n);
                proof {
                    assert forall|i2: int|
                        0 <= i2 < kept@.len() implies names_keys(old(fv)@).contains(
                        (#[trigger] kept@[i2]).key(),
                    ) && !bkeys.contains(kept@[i2].key()) by {
                        if i2 < kept@.len() - 1 {
                            assert(kept@[i2] == kept0[i2]);
                        } else {
                            assert(kept@[i2] == n);
                            assert(old(fv)@[k as int].key() == n.key());
                            assert(names_keys(old(fv)@).contains(n.key()));
                        }
                    }
                    assert forall|j: int|
                        0 <= j < k + 1 && !bkeys.contains(
                            (#[trigger] old(fv)@[j]).key(),
                        ) implies names_keys(kept@).contains(old(fv)@[j].key()) by {
                        if j < k {
                            let i2 = choose|i2: int|
                                0 <= i2 < kept0.len() && (#[trigger] kept0[i2]).key() == old(
                                    fv,
                                )@[j].key();
                            assert(kept@[i2].key() == old(fv)@[j].key());
                        } else {
                            assert(kept@[kept@.len() - 1].key() == old(fv)@[j].key());
                        }
                    }
                }
            }
            k += 1;
        }
        *fv = kept;
        proof {
            assert forall|kk: (Seq<char>, int)|
                names_keys(fv@).contains(kk) implies names_keys(old(fv)@).contains(kk)
                && !bkeys.contains(kk) by {
                let i2 = choose|i2: int| 0 <= i2 < fv@.len() && (#[trigger] fv@[i2]).key() == kk;
            }
            assert forall|kk: (Seq<char>, int)|
                names_keys(old(fv)@).contains(kk) && !bkeys.contains(kk) implies names_keys(
                fv@,
            ).contains(kk) by {
                let j = choose|j: int|
                    0 <= j < old(fv)@.len() && (#[trigger] old(fv)@[j]).key() == kk;
            }
            assert forall|kk: (Seq<char>, int)|
                names_keys(fv@).contains(kk) implies !(frame_to_keys(
                Frame { is_fun: false, bindings: *bindings },
            ).contains(kk)) by {
                assert(!bkeys.contains(kk));
                if frame_to_keys(Frame { is_fun: false, bindings: *bindings }).contains(kk) {
                    let b = choose|b: int|
                        0 <= b < bindings@.len() && (#[trigger] bindings@[b]).to.key() == kk;
                }
            }
        }
    }

impl Flatten {
    /// Flatten one expression under the environment, returning the
    /// converted expression and its free variables: the renamed names it
    /// closes over.
    #[verifier::rlimit(100)]
    #[verifier::spinoff_prover]
    fn map_expr(&mut self, a: &ast::AST, env: &mut Env) -> (r: (Expr, Vec<Name>))
        requires
            no_primapp(*a),
            env_ids_ok(old(env).frames@, old(self).counter as int),
            procs_ids_ok(old(self).procs@, old(self).counter as int),
            procs_names_ok(old(self).procs@),
        ensures
            final(env).frames@ == old(env).frames@,
            final(self).counter >= old(self).counter,
            procs_extended(old(self).procs@, final(self).procs@),
            spec_fn_free(*a) ==> final(self).procs@ == old(self).procs@,
            names_keys(r.1@).subset_of(env_to_keys(old(env).frames@)),
            expr_clovers_in(r.0, env_clover_keys(old(env).frames@)),
            final(self).counter < usize::MAX ==> expr_clovers_in(r.0, names_keys(r.1@)),
            new_procs_ok(old(self).procs@, final(self).procs@),
            procs_ids_ok(final(self).procs@, final(self).counter as int),
            procs_names_ok(final(self).procs@),
            match *a {
                ast::AST::Block { pos, stmts } => (r.0 matches Expr::Block { pos: p2, stmts: s2 }
                    && p2 == pos && s2@.len() == stmts@.len()),
                ast::AST::Fn { pos, .. } => (r.0 matches Expr::Closure(c) && c.pos == pos && final(self).procs@.len() > old(self).procs@.len() && final(self).procs@.last().name.key()
                    == c.fun.key() && ({
                    let pf = final(self).procs@.last().fun;
                    &&& c.freevars@.len() == r.1@.len()
                    &&& pf.freevars@.len() == r.1@.len()
                    &&& forall|i: int|
                        0 <= i < r.1@.len() ==> (#[trigger] c.freevars@[i]).key() == r.1@[i].key()
                    &&& forall|i: int|
                        0 <= i < r.1@.len() ==> (#[trigger] pf.freevars@[i]).key()
                            == r.1@[i].key()
                })),
                ast::AST::App { pos, args, .. } => (r.0 matches Expr::App { pos: p2, args: a2, .. }
                    && p2 == pos && a2@.len() == args@.len()),
                ast::AST::PrimApp(..) => true,
                ast::AST::Var(v) => (r.0 matches Expr::Var(v2) && v2.pos == v.pos && ({
                    let k = v.name.spec_name().key();
                    match spec_resolve_from(
                        old(env).frames@,
                        old(env).frames@.len() - 1,
                        false,
                        k,
                    ) {
                        None => (v2.name matches VarRef::Global(n) && n.key() == k) && r.1@.len()
                            == 0,
                        Some((m, crossed)) => {
                            if crossed {
                                (v2.name matches VarRef::Clover(n) && n.key() == m.key())
                                    && r.1@.len() == 1 && r.1@[0].key() == m.key()
                            } else {
                                (v2.name matches VarRef::Local(n) && n.key() == m.key())
                                    && r.1@.len() == 0
                            }
                        },
                    }
                })),
                ast::AST::Const { pos, val } => r.0 == (Expr::Const { pos, val }),
            },
        decreases *a,
    {
        match a {
            ast::AST::Block { pos, stmts } => {
                let ghost c0 = self.counter as int;
                let bindings = self.block_bindings(stmts);
                let ghost bvec = bindings@;
                env.block(bindings);
                let ghost env1 = env.frames@;
                proof {
                    assert(env1.drop_last() =~= old(env).frames@);
                    lemma_clover_keys_push_block(old(env).frames@, env1.last());
                    lemma_to_keys_push(old(env).frames@, env1.last());
                    assert(env1 =~= old(env).frames@.push(env1.last()));
                    lemma_env_ids_push(old(env).frames@, env1.last(), c0, self.counter as int);
                }
                let mut out: Vec<Stmt> = Vec::new();
                let mut fv: Vec<Name> = Vec::new();
                let mut i: usize = 0;
                while i < stmts.len()
                    invariant
                        i <= stmts@.len(),
                        out@.len() == i,
                        env.frames@ == env1,
                        env1.len() == old(env).frames@.len() + 1,
                        env1.drop_last() == old(env).frames@,
                        env1.last().bindings@ == bvec,
                        !env1.last().is_fun,
                        c0 == old(self).counter as int,
                        forall|b: int|
                            0 <= b < bvec.len() ==> (#[trigger] bvec[b]).to.id >= c0,
                        env_clover_keys(env1) == env_clover_keys(old(env).frames@),
                        env_to_keys(env1) == env_to_keys(old(env).frames@).union(
                            frame_to_keys(env1.last()),
                        ),
                        self.counter >= old(self).counter,
                        env_ids_ok(env1, self.counter as int),
                        env_ids_ok(old(env).frames@, c0),
                        procs_extended(old(self).procs@, self.procs@),
                        new_procs_ok(old(self).procs@, self.procs@),
                procs_ids_ok(self.procs@, self.counter as int),
                procs_names_ok(self.procs@),
                        procs_ids_ok(self.procs@, self.counter as int),
                        procs_names_ok(self.procs@),
                        names_keys(fv@).subset_of(env_to_keys(env1)),
                        forall|k2: int|
                            0 <= k2 < out@.len() ==> stmt_clovers_in(
                                #[trigger] out@[k2],
                                env_clover_keys(old(env).frames@),
                            ),
                        self.counter < usize::MAX ==> forall|k2: int|
                            0 <= k2 < out@.len() ==> stmt_clovers_in(
                                #[trigger] out@[k2],
                                names_keys(fv@),
                            ),
                        (forall|k: int|
                            0 <= k < stmts@.len() ==> spec_fn_free_stmt(#[trigger] stmts@[k]))
                            ==> self.procs@ == old(self).procs@,
                        forall|k: int|
                            0 <= k < stmts@.len() ==> no_primapp_stmt(#[trigger] stmts@[k]),
                        forall|k: int|
                            0 <= k < stmts@.len() ==> decreases_to!(*a => stmts@[k]),
                    decreases stmts@.len() - i,
                {
                    let ghost cpre = self.counter as int;
                    let (s, f) = self.map_stmt(&stmts[i], env);
                    out.push(s);
                    let ghost fvpre = fv@;
                    merge_freevars(&mut fv, f);
                    proof {
                        lemma_env_ids_mono(env1, cpre, self.counter as int);
                        assert forall|k2: int| 0 <= k2 < out@.len() implies stmt_clovers_in(
                            #[trigger] out@[k2],
                            env_clover_keys(old(env).frames@),
                        ) by {
                            if k2 == out@.len() - 1 {
                                assert(stmt_clovers_in(out@[k2], env_clover_keys(env1)));
                            }
                        }
                        if self.counter < usize::MAX {
                            assert forall|k2: int| 0 <= k2 < out@.len() implies stmt_clovers_in(
                                #[trigger] out@[k2],
                                names_keys(fv@),
                            ) by {
                                if k2 < out@.len() - 1 {
                                    lemma_stmt_clovers_combine(
                                        out@[k2],
                                        names_keys(fvpre),
                                        names_keys(fvpre),
                                        names_keys(fv@),
                                    );
                                } else {
                                    lemma_stmt_clovers_combine(
                                        out@[k2],
                                        names_keys(f@),
                                        names_keys(f@),
                                        names_keys(fv@),
                                    );
                                }
                            }
                        }
                    }
                    i += 1;
                }
                let frame = env.pop();
                let ghost fvmid = fv@;
                remove_bindings(&mut fv, &frame.bindings);
                proof {
                    assert(frame == env1.last());
                    assert(frame_to_keys(Frame { is_fun: true, bindings: frame.bindings })
                        =~= frame_to_keys(env1.last()));
                    // The surviving free variables come from the outer
                    // environment.
                    assert forall|kk: (Seq<char>, int)|
                        names_keys(fv@).contains(kk) implies env_to_keys(
                        old(env).frames@,
                    ).contains(kk) by {
                        let trig = frame_to_keys(
                            Frame { is_fun: true, bindings: frame.bindings },
                        ).contains(kk);
                        assert(names_keys(fvmid).contains(kk));
                        assert(!frame_to_keys(env1.last()).contains(kk));
                    }
                    // Clovers of the block survived the removal: their
                    // stamps predate the block's fresh bindings.
                    if self.counter < usize::MAX {
                        assert forall|kk: (Seq<char>, int)|
                            names_keys(fvmid).contains(kk) && env_clover_keys(
                                old(env).frames@,
                            ).contains(kk) implies names_keys(fv@).contains(kk) by {
                            lemma_clover_is_to_key(old(env).frames@, kk);
                            lemma_env_key_id(old(env).frames@, c0, kk);
                            if frame_to_keys(env1.last()).contains(kk) {
                                let b = choose|b: int|
                                    0 <= b < bvec.len() && (#[trigger] bvec[b]).to.key() == kk;
                            }
                            assert(!frame_to_keys(
                                Frame { is_fun: true, bindings: frame.bindings },
                            ).contains(kk));
                        }
                        assert forall|k2: int| 0 <= k2 < out@.len() implies stmt_clovers_in(
                            #[trigger] out@[k2],
                            names_keys(fv@),
                        ) by {
                            lemma_stmt_clovers_combine(
                                out@[k2],
                                names_keys(fvmid),
                                env_clover_keys(old(env).frames@),
                                names_keys(fv@),
                            );
                        }
                    }
                }
                (Expr::Block { pos: *pos, stmts: out }, fv)
            },
            ast::AST::Fn { pos, clauses } => {
                let ghost c0 = self.counter as int;
                let mut fv: Vec<Name> = Vec::new();
                let mut flat: Vec<Clause> = Vec::new();
                let mut i: usize = 0;
                while i < clauses.len()
                    invariant
                        i <= clauses@.len(),
                        env.frames@ == old(env).frames@,
                        c0 == old(self).counter as int,
                        self.counter >= old(self).counter,
                        env_ids_ok(old(env).frames@, self.counter as int),
                        procs_extended(old(self).procs@, self.procs@),
                        new_procs_ok(old(self).procs@, self.procs@),
                procs_ids_ok(self.procs@, self.counter as int),
                procs_names_ok(self.procs@),
                        procs_ids_ok(self.procs@, self.counter as int),
                        procs_names_ok(self.procs@),
                        names_keys(fv@).subset_of(env_to_keys(old(env).frames@)),
                        forall|k2: int|
                            0 <= k2 < flat@.len() ==> clause_clovers_in(
                                #[trigger] flat@[k2],
                                env_to_keys(old(env).frames@),
                            ),
                        self.counter < usize::MAX ==> forall|k2: int|
                            0 <= k2 < flat@.len() ==> clause_clovers_in(
                                #[trigger] flat@[k2],
                                names_keys(fv@),
                            ),
                        forall|k: int|
                            0 <= k < clauses@.len() ==> no_primapp_clause(#[trigger] clauses@[k]),
                        forall|k: int|
                            0 <= k < clauses@.len() ==> decreases_to!(*a => clauses@[k]),
                    decreases clauses@.len() - i,
                {
                    let ghost cpre = self.counter as int;
                    let (c, f) = self.map_clause(&clauses[i], env);
                    flat.push(c);
                    let ghost fvpre = fv@;
                    merge_freevars(&mut fv, f);
                    proof {
                        lemma_env_ids_mono(old(env).frames@, cpre, self.counter as int);
                        if self.counter < usize::MAX {
                            assert forall|k2: int| 0 <= k2 < flat@.len() implies clause_clovers_in(
                                #[trigger] flat@[k2],
                                names_keys(fv@),
                            ) by {
                                if k2 < flat@.len() - 1 {
                                    lemma_clause_clovers_combine(
                                        flat@[k2],
                                        names_keys(fvpre),
                                        names_keys(fvpre),
                                        names_keys(fv@),
                                    );
                                } else {
                                    lemma_clause_clovers_combine(
                                        flat@[k2],
                                        names_keys(f@),
                                        names_keys(f@),
                                        names_keys(fv@),
                                    );
                                }
                            }
                        }
                    }
                    i += 1;
                }
                // Group the clauses into arity buckets.
                let mut groups: Vec<ArityGroup> = Vec::new();
                while flat.len() > 0
                    invariant
                        forall|k2: int|
                            0 <= k2 < flat@.len() ==> clause_clovers_in(
                                #[trigger] flat@[k2],
                                env_to_keys(old(env).frames@),
                            ),
                        self.counter < usize::MAX ==> forall|k2: int|
                            0 <= k2 < flat@.len() ==> clause_clovers_in(
                                #[trigger] flat@[k2],
                                names_keys(fv@),
                            ),
                        forall|g: int, i2: int|
                            0 <= g < groups@.len() && 0 <= i2 < groups@[g].clauses@.len()
                                ==> clause_clovers_in(
                                #[trigger] groups@[g].clauses@[i2],
                                env_to_keys(old(env).frames@),
                            ),
                        self.counter < usize::MAX ==> forall|g: int, i2: int|
                            0 <= g < groups@.len() && 0 <= i2 < groups@[g].clauses@.len()
                                ==> clause_clovers_in(
                                #[trigger] groups@[g].clauses@[i2],
                                names_keys(fv@),
                            ),
                    decreases flat@.len(),
                {
                    let c = flat.remove(0);
                    let arity = c.params.len();
                    let mut at: usize = groups.len();
                    let mut j: usize = 0;
                    while j < groups.len()
                        invariant
                            at <= groups@.len(),
                        decreases groups@.len() - j,
                    {
                        if groups[j].arity == arity && at == groups.len() {
                            at = j;
                        }
                        j += 1;
                    }
                    if at < groups.len() {
                        let g = &mut groups[at];
                        g.clauses.push(c);
                    } else {
                        groups.push(ArityGroup { arity, clauses: vec![c] });
                    }
                }
                let freevec = copy_names(&fv);
                let inner = copy_names(&fv);
                proof {
                    lemma_same_keys(freevec@, fv@);
                    lemma_same_keys(inner@, fv@);
                }
                let ghost cadd = self.counter as int;
                let name = self.add_proc(Fun { pos: *pos, freevars: inner, clauses: groups });
                proof {
                    if name.id < usize::MAX {
                        assert(cadd < usize::MAX);
                        assert(proc_ok(self.procs@.last())) by {
                            let pf = self.procs@.last().fun;
                            assert forall|g: int, i2: int|
                                0 <= g < pf.clauses@.len() && 0 <= i2
                                    < pf.clauses@[g].clauses@.len() implies clause_clovers_in(
                                #[trigger] pf.clauses@[g].clauses@[i2],
                                names_keys(pf.freevars@),
                            ) by {
                                lemma_clause_clovers_combine(
                                    pf.clauses@[g].clauses@[i2],
                                    names_keys(fv@),
                                    names_keys(fv@),
                                    names_keys(pf.freevars@),
                                );
                            }
                        }
                    }
                    assert forall|p: int|
                        old(self).procs@.len() <= p < self.procs@.len() && (
                        #[trigger] self.procs@[p]).name.id < usize::MAX implies proc_ok(
                        self.procs@[p],
                    ) by {
                        if p < self.procs@.len() - 1 {
                        } else {
                            assert(self.procs@[p] == self.procs@.last());
                        }
                    }
                }
                (Expr::Closure(Closure { pos: *pos, fun: name, freevars: freevec }), fv)
            },
            ast::AST::App { pos, op, args } => {
                proof {
                    assert(decreases_to!(*a => *op));
                }
                let (o, mut fv) = self.map_expr(op, env);
                let mut outargs: Vec<Expr> = Vec::new();
                let mut i: usize = 0;
                while i < args.len()
                    invariant
                        i <= args@.len(),
                        outargs@.len() == i,
                        env.frames@ == old(env).frames@,
                        self.counter >= old(self).counter,
                        env_ids_ok(old(env).frames@, self.counter as int),
                        procs_extended(old(self).procs@, self.procs@),
                        new_procs_ok(old(self).procs@, self.procs@),
                procs_ids_ok(self.procs@, self.counter as int),
                procs_names_ok(self.procs@),
                        procs_ids_ok(self.procs@, self.counter as int),
                        procs_names_ok(self.procs@),
                        names_keys(fv@).subset_of(env_to_keys(old(env).frames@)),
                        expr_clovers_in(o, env_clover_keys(old(env).frames@)),
                        self.counter < usize::MAX ==> expr_clovers_in(o, names_keys(fv@)),
                        forall|k2: int|
                            0 <= k2 < outargs@.len() ==> expr_clovers_in(
                                #[trigger] outargs@[k2],
                                env_clover_keys(old(env).frames@),
                            ),
                        self.counter < usize::MAX ==> forall|k2: int|
                            0 <= k2 < outargs@.len() ==> expr_clovers_in(
                                #[trigger] outargs@[k2],
                                names_keys(fv@),
                            ),
                        (spec_fn_free(**op) && forall|k: int|
                            0 <= k < args@.len() ==> spec_fn_free(#[trigger] args@[k])) ==> self.procs@
                            == old(self).procs@,
                        forall|k: int| 0 <= k < args@.len() ==> no_primapp(#[trigger] args@[k]),
                        forall|k: int| 0 <= k < args@.len() ==> decreases_to!(*a => args@[k]),
                    decreases args@.len() - i,
                {
                    let ghost cpre = self.counter as int;
                    let (e, f) = self.map_expr(&args[i], env);
                    outargs.push(e);
                    let ghost fvpre = fv@;
                    merge_freevars(&mut fv, f);
                    proof {
                        lemma_env_ids_mono(old(env).frames@, cpre, self.counter as int);
                        if self.counter < usize::MAX {
                            lemma_expr_clovers_combine(
                                o,
                                names_keys(fvpre),
                                names_keys(fvpre),
                                names_keys(fv@),
                            );
                            assert forall|k2: int| 0 <= k2 < outargs@.len() implies expr_clovers_in(
                                #[trigger] outargs@[k2],
                                names_keys(fv@),
                            ) by {
                                if k2 < outargs@.len() - 1 {
                                    lemma_expr_clovers_combine(
                                        outargs@[k2],
                                        names_keys(fvpre),
                                        names_keys(fvpre),
                                        names_keys(fv@),
                                    );
                                } else {
                                    lemma_expr_clovers_combine(
                                        outargs@[k2],
                                        names_keys(f@),
                                        names_keys(f@),
                                        names_keys(fv@),
                                    );
                                }
                            }
                        }
                    }
                    i += 1;
                }
                (Expr::App { pos: *pos, op: Box::new(o), args: outargs }, fv)
            },
            ast::AST::PrimApp(..) => {
                proof {
                    assert(false);
                }
                (Expr::Const { pos: SrcPos { line: 0, col: 0 }, val: ConstVal::Bool(false) },
                Vec::new())
            },
            ast::AST::Var(v) => {
                let inner = v.name.name();
                let vr = env.resolve(inner);
                let fv = match &vr {
                    VarRef::Clover(n) => vec![n.duplicate()],
                    _ => Vec::new(),
                };
                proof {
                    let frames = old(env).frames@;
                    let kk = v.name.spec_name().key();
                    lemma_empty_keys(Seq::<Name>::empty());
                    match spec_resolve_from(frames, frames.len() - 1, false, kk) {
                        Some((m, crossed)) => {
                            if crossed {
                                lemma_resolve_clover(frames, frames.len() - 1, false, kk);
                                lemma_resolve_in(frames, frames.len() - 1, false, kk);
                                assert(fv@.len() == 1 && fv@[0].key() == m.key());
                                assert forall|k2: (Seq<char>, int)|
                                    names_keys(fv@).contains(k2) implies k2 == m.key() by {
                                    let i2 = choose|i2: int|
                                        0 <= i2 < fv@.len() && (#[trigger] fv@[i2]).key() == k2;
                                }
                                assert(names_keys(fv@).contains(m.key()));
                            } else {
                                assert(fv@.len() == 0);
                                lemma_empty_keys(fv@);
                            }
                        },
                        None => {
                            assert(fv@.len() == 0);
                            lemma_empty_keys(fv@);
                        },
                    }
                }
                (Expr::Var(Var { pos: v.pos, name: vr }), fv)
            },
            ast::AST::Const { pos, val } => {
                proof {
                    lemma_empty_keys(Seq::<Name>::empty());
                }
                (Expr::Const { pos: *pos, val: *val }, Vec::new())
            },
        }
    }

    /// Flatten one statement: a definition takes its renamed name from the
    /// environment.
    fn map_stmt(&mut self, s: &ast::Stmt, env: &mut Env) -> (r: (Stmt, Vec<Name>))
        requires
            no_primapp_stmt(*s),
            env_ids_ok(old(env).frames@, old(self).counter as int),
            procs_ids_ok(old(self).procs@, old(self).counter as int),
            procs_names_ok(old(self).procs@),
        ensures
            final(env).frames@ == old(env).frames@,
            final(self).counter >= old(self).counter,
            procs_extended(old(self).procs@, final(self).procs@),
            spec_fn_free_stmt(*s) ==> final(self).procs@ == old(self).procs@,
            names_keys(r.1@).subset_of(env_to_keys(old(env).frames@)),
            stmt_clovers_in(r.0, env_clover_keys(old(env).frames@)),
            final(self).counter < usize::MAX ==> stmt_clovers_in(r.0, names_keys(r.1@)),
            new_procs_ok(old(self).procs@, final(self).procs@),
            procs_ids_ok(final(self).procs@, final(self).counter as int),
            procs_names_ok(final(self).procs@),
            match *s {
                ast::Stmt::Def { name, .. } => (r.0 matches Stmt::Def { name: n2, .. } && ({
                    let k = name.key();
                    match spec_resolve_from(
                        old(env).frames@,
                        old(env).frames@.len() - 1,
                        false,
                        k,
                    ) {
                        None => n2.key() == k,
                        Some((m, _)) => n2.key() == m.key(),
                    }
                })),
                ast::Stmt::Expr(..) => r.0 is Expr,
            },
        decreases *s,
    {
        match s {
            ast::Stmt::Def { name, val } => {
                proof {
                    assert(decreases_to!(*s => *val));
                }
                let (e, fv) = self.map_expr(val, env);
                let renamed = match env.resolve_str(name) {
                    Some(n) => n,
                    None => name.duplicate(),
                };
                (Stmt::Def { name: renamed, val: e }, fv)
            },
            ast::Stmt::Expr(e) => {
                proof {
                    assert(decreases_to!(*s => *e));
                }
                let (out, fv) = self.map_expr(e, env);
                (Stmt::Expr(out), fv)
            },
        }
    }

    /// Flatten one clause: the guard is resolved under the parameter
    /// frame alone; the body under parameters and its block definitions,
    /// one function frame for both; a synthetic self parameter is
    /// prepended.
    #[verifier::rlimit(100)]
    #[verifier::spinoff_prover]
    fn map_clause(&mut self, c: &ast::Clause, env: &mut Env) -> (r: (Clause, Vec<Name>))
        requires
            no_primapp_clause(*c),
            env_ids_ok(old(env).frames@, old(self).counter as int),
            procs_ids_ok(old(self).procs@, old(self).counter as int),
            procs_names_ok(old(self).procs@),
        ensures
            final(env).frames@ == old(env).frames@,
            final(self).counter >= old(self).counter,
            procs_extended(old(self).procs@, final(self).procs@),
            names_keys(r.1@).subset_of(env_to_keys(old(env).frames@)),
            clause_clovers_in(r.0, env_to_keys(old(env).frames@)),
            final(self).counter < usize::MAX ==> clause_clovers_in(r.0, names_keys(r.1@)),
            new_procs_ok(old(self).procs@, final(self).procs@),
            procs_ids_ok(final(self).procs@, final(self).counter as int),
            procs_names_ok(final(self).procs@),
            r.0.pos == c.pos,
            r.0.params@.len() == c.params@.len() + 1,
            final(self).counter < usize::MAX ==> forall|i: int, j: int|
                0 <= i < j < r.0.params@.len() ==> (#[trigger] r.0.params@[i]).key() != (
                #[trigger] r.0.params@[j]).key(),
        decreases *c,
    {
        let ghost c0 = self.counter as int;
        let pb = self.param_bindings(&c.params);
        let pb_copy = copy_bindings(&pb);
        let ghost pbvec = pb@;
        env.clause(pb);
        let ghost env1 = env.frames@;
        proof {
            assert(env1.drop_last() =~= old(env).frames@);
            assert(env1 =~= old(env).frames@.push(env1.last()));
            lemma_clover_keys_push_fun(old(env).frames@, env1.last());
            lemma_to_keys_push(old(env).frames@, env1.last());
            lemma_env_ids_push(old(env).frames@, env1.last(), c0, self.counter as int);
            assert(decreases_to!(*c => c.cond));
        }
        let (cond, mut fv) = self.map_expr(&c.cond, env);
        let ghost ccond = self.counter as int;
        let pframe = env.pop();
        let ghost fvmid = fv@;
        remove_bindings(&mut fv, &pframe.bindings);
        proof {
            assert(pframe == env1.last());
            assert(frame_to_keys(Frame { is_fun: true, bindings: pframe.bindings })
                =~= frame_to_keys(env1.last()));
            assert forall|kk: (Seq<char>, int)|
                names_keys(fv@).contains(kk) implies env_to_keys(old(env).frames@).contains(
                kk,
            ) by {
                let trig = frame_to_keys(
                    Frame { is_fun: true, bindings: pframe.bindings },
                ).contains(kk);
                assert(names_keys(fvmid).contains(kk));
                assert(!frame_to_keys(env1.last()).contains(kk));
            }
            if self.counter < usize::MAX {
                assert forall|kk: (Seq<char>, int)|
                    names_keys(fvmid).contains(kk) && env_to_keys(old(env).frames@).contains(
                        kk,
                    ) implies names_keys(fv@).contains(kk) by {
                    lemma_env_key_id(old(env).frames@, c0, kk);
                    if frame_to_keys(env1.last()).contains(kk) {
                        let b = choose|b: int|
                            0 <= b < pbvec.len() && (#[trigger] pbvec[b]).to.key() == kk;
                    }
                    assert(!frame_to_keys(
                        Frame { is_fun: true, bindings: pframe.bindings },
                    ).contains(kk));
                }
                lemma_expr_clovers_combine(
                    cond,
                    names_keys(fvmid),
                    env_to_keys(old(env).frames@),
                    names_keys(fv@),
                );
            }
        }
        let ghost cbb0 = self.counter as int;
        let bb = self.block_bindings(&c.body);
        let ghost bbvec = bb@;
        let mut combined = pframe.bindings;
        let mut bb = bb;
        let ghost combined0 = combined@;
        let ghost mut moved: int = 0;
        while bb.len() > 0
            invariant
                0 <= moved <= bbvec.len(),
                bb@ =~= bbvec.subrange(moved, bbvec.len() as int),
                combined@ =~= combined0 + bbvec.subrange(0, moved),
            decreases bb@.len(),
        {
            let b = bb.remove(0);
            proof {
                assert(b == bbvec[moved]);
            }
            combined.push(b);
            proof {
                moved = moved + 1;
                assert(bb@ =~= bbvec.subrange(moved, bbvec.len() as int));
                assert(combined@ =~= combined0 + bbvec.subrange(0, moved));
            }
        }
        proof {
            assert(bbvec.subrange(0, bbvec.len() as int) =~= bbvec);
            assert(combined@ =~= combined0 + bbvec);
        }
        env.clause(combined);
        let ghost env2 = env.frames@;
        proof {
            assert(env2.drop_last() =~= old(env).frames@);
            assert(env2 =~= old(env).frames@.push(env2.last()));
            lemma_clover_keys_push_fun(old(env).frames@, env2.last());
            lemma_to_keys_push(old(env).frames@, env2.last());
            assert forall|b: int|
                0 <= b < env2.last().bindings@.len() implies (
                #[trigger] env2.last().bindings@[b]).to.id >= c0 && (env2.last().bindings@[b].to.id
                < self.counter as int || self.counter == usize::MAX) by {
                if b < combined0.len() {
                    assert(env2.last().bindings@[b] == pbvec[b]);
                } else {
                    assert(env2.last().bindings@[b] == bbvec[b - combined0.len()]);
                }
            }
            lemma_env_ids_push(old(env).frames@, env2.last(), c0, self.counter as int);
        }
        let mut body: Vec<Stmt> = Vec::new();
        let mut i: usize = 0;
        while i < c.body.len()
            invariant
                i <= c.body@.len(),
                body@.len() == i,
                env.frames@ == env2,
                env2.len() == old(env).frames@.len() + 1,
                env2.drop_last() == old(env).frames@,
                env2.last().is_fun,
                c0 == old(self).counter as int,
                forall|b: int|
                    0 <= b < env2.last().bindings@.len() ==> (
                    #[trigger] env2.last().bindings@[b]).to.id >= c0,
                env_clover_keys(env2) == env_to_keys(old(env).frames@),
                env_to_keys(env2) == env_to_keys(old(env).frames@).union(
                    frame_to_keys(env2.last()),
                ),
                self.counter >= old(self).counter,
                env_ids_ok(env2, self.counter as int),
                env_ids_ok(old(env).frames@, c0),
                procs_extended(old(self).procs@, self.procs@),
                new_procs_ok(old(self).procs@, self.procs@),
                procs_ids_ok(self.procs@, self.counter as int),
                procs_names_ok(self.procs@),
                names_keys(fv@).subset_of(env_to_keys(env2)),
                expr_clovers_in(cond, env_to_keys(old(env).frames@)),
                self.counter < usize::MAX ==> expr_clovers_in(cond, names_keys(fv@)),
                forall|k2: int|
                    0 <= k2 < body@.len() ==> stmt_clovers_in(
                        #[trigger] body@[k2],
                        env_to_keys(old(env).frames@),
                    ),
                self.counter < usize::MAX ==> forall|k2: int|
                    0 <= k2 < body@.len() ==> stmt_clovers_in(
                        #[trigger] body@[k2],
                        names_keys(fv@),
                    ),
                self.counter < usize::MAX ==> ((forall|b: int|
                    0 <= b < pbvec.len() ==> (#[trigger] pbvec[b]).to.id == c0 + b)
                    && self.counter as int >= c0 + pbvec.len()),
                forall|k: int| 0 <= k < c.body@.len() ==> no_primapp_stmt(#[trigger] c.body@[k]),
                forall|k: int| 0 <= k < c.body@.len() ==> decreases_to!(*c => c.body@[k]),
            decreases c.body@.len() - i,
        {
            let ghost cpre = self.counter as int;
            let ghost fvpre = fv@;
            let (st, f) = self.map_stmt(&c.body[i], env);
            body.push(st);
            merge_freevars(&mut fv, f);
            proof {
                lemma_env_ids_mono(env2, cpre, self.counter as int);
                if self.counter < usize::MAX {
                    lemma_expr_clovers_combine(
                        cond,
                        names_keys(fvpre),
                        names_keys(fvpre),
                        names_keys(fv@),
                    );
                    assert forall|k2: int| 0 <= k2 < body@.len() implies stmt_clovers_in(
                        #[trigger] body@[k2],
                        names_keys(fv@),
                    ) by {
                        if k2 < body@.len() - 1 {
                            lemma_stmt_clovers_combine(
                                body@[k2],
                                names_keys(fvpre),
                                names_keys(fvpre),
                                names_keys(fv@),
                            );
                        } else {
                            lemma_stmt_clovers_combine(
                                body@[k2],
                                names_keys(f@),
                                names_keys(f@),
                                names_keys(fv@),
                            );
                        }
                    }
                }
            }
            i += 1;
        }
        let bframe = env.pop();
        let ghost fvmid2 = fv@;
        remove_bindings(&mut fv, &bframe.bindings);
        proof {
            assert(bframe == env2.last());
            assert(frame_to_keys(Frame { is_fun: true, bindings: bframe.bindings })
                =~= frame_to_keys(env2.last()));
            assert forall|kk: (Seq<char>, int)|
                names_keys(fv@).contains(kk) implies env_to_keys(old(env).frames@).contains(
                kk,
            ) by {
                let trig = frame_to_keys(
                    Frame { is_fun: true, bindings: bframe.bindings },
                ).contains(kk);
                assert(names_keys(fvmid2).contains(kk));
                assert(!frame_to_keys(env2.last()).contains(kk));
            }
            if self.counter < usize::MAX {
                assert forall|kk: (Seq<char>, int)|
                    names_keys(fvmid2).contains(kk) && env_to_keys(old(env).frames@).contains(
                        kk,
                    ) implies names_keys(fv@).contains(kk) by {
                    lemma_env_key_id(old(env).frames@, c0, kk);
                    if frame_to_keys(env2.last()).contains(kk) {
                        let b = choose|b: int|
                            0 <= b < env2.last().bindings@.len() && (
                            #[trigger] env2.last().bindings@[b]).to.key() == kk;
                    }
                    assert(!frame_to_keys(
                        Frame { is_fun: true, bindings: bframe.bindings },
                    ).contains(kk));
                }
                lemma_expr_clovers_combine(
                    cond,
                    names_keys(fvmid2),
                    env_to_keys(old(env).frames@),
                    names_keys(fv@),
                );
                assert forall|k2: int| 0 <= k2 < body@.len() implies stmt_clovers_in(
                    #[trigger] body@[k2],
                    names_keys(fv@),
                ) by {
                    lemma_stmt_clovers_combine(
                        body@[k2],
                        names_keys(fvmid2),
                        env_to_keys(old(env).frames@),
                        names_keys(fv@),
                    );
                }
            }
        }
        let mut params: Vec<Name> = Vec::new();
        let ghost cself = self.counter as int;
        proof {
            if self.counter < usize::MAX {
                assert(cself >= c0 + pbvec.len());
            }
        }
        let selfname = Name { base: fresh_self(), id: self.counter };
        if self.counter < usize::MAX {
            self.counter = self.counter + 1;
        }
        params.push(selfname);
        let mut j: usize = 0;
        while j < pb_copy.len()
            invariant
                j <= pb_copy@.len(),
                params@.len() == j + 1,
                params@[0].id == cself,
                pb_copy@.len() == pbvec.len(),
                forall|b: int|
                    0 <= b < pb_copy@.len() ==> (#[trigger] pb_copy@[b]).to.key() == pbvec[b].to.key(),
                self.counter < usize::MAX ==> (forall|b: int|
                    0 <= b < j ==> (#[trigger] params@[1 + b]).id == c0 + b) && (forall|b: int|
                    0 <= b < pbvec.len() ==> (#[trigger] pbvec[b]).to.id == c0 + b) && cself >= c0
                    + pbvec.len(),
            decreases pb_copy@.len() - j,
        {
            proof {
                if self.counter < usize::MAX {
                    assert(pb_copy@[j as int].to.key() == pbvec[j as int].to.key());
                }
            }
            params.push(pb_copy[j].to.duplicate());
            j += 1;
        }
        proof {
            if self.counter < usize::MAX {
                assert forall|i2: int, j2: int|
                    0 <= i2 < j2 < params@.len() implies (#[trigger] params@[i2]).key() != (
                    #[trigger] params@[j2]).key() by {
                    assert(params@[1 + (j2 - 1)].id == c0 + (j2 - 1));
                    if i2 > 0 {
                        assert(params@[1 + (i2 - 1)].id == c0 + (i2 - 1));
                    }
                }
            }
        }
        (Clause { pos: c.pos, params, cond, body }, fv)
    }
}

impl ast::AST {
    /// Flatten the tree: resolve and rename every variable, lift every
    /// function to a top-level procedure with its free-variable list, and
    /// return the procedures with the residual expression.
    pub fn flatten(&self) -> (r: FAST)
        requires
            no_primapp(*self),
        ensures
            spec_fn_free(*self) ==> r.procs@.len() == 0,
            expr_clovers_in(r.expr, Set::<(Seq<char>, int)>::empty()),
            forall|p: int|
                0 <= p < r.procs@.len() && (#[trigger] r.procs@[p]).name.id < usize::MAX
                    ==> proc_ok(r.procs@[p]),
            procs_names_ok(r.procs@),
            match *self {
                ast::AST::Block { pos, stmts } => (r.expr matches Expr::Block {
                    pos: p2,
                    stmts: s2,
                } && p2 == pos && s2@.len() == stmts@.len()),
                ast::AST::Fn { pos, .. } => (r.expr matches Expr::Closure(c) && c.pos == pos
                    && r.procs@.len() > 0 && r.procs@.last().name.key() == c.fun.key()),
                ast::AST::App { pos, args, .. } => (r.expr matches Expr::App {
                    pos: p2,
                    args: a2,
                    ..
                } && p2 == pos && a2@.len() == args@.len()),
                ast::AST::PrimApp(..) => true,
                ast::AST::Var(v) => (r.expr matches Expr::Var(v2) && v2.pos == v.pos && (
                v2.name matches VarRef::Global(n) && n.key() == v.name.spec_name().key())),
                ast::AST::Const { pos, val } => r.expr == (Expr::Const { pos, val }),
            },
    {
        let mut fl = Flatten::new();
        let mut env = Env::new();
        let (expr, _fv) = fl.map_expr(self, &mut env);
        proof {
            assert forall|k: (Seq<char>, int)|
                env_clover_keys(env.frames@).contains(k) && true implies Set::<(
                Seq<char>,
                int,
            )>::empty().contains(k) by {
                let i = choose|i: int|
                    0 <= i < env.frames@.len() && #[trigger] frame_to_keys(
                        env.frames@[i],
                    ).contains(k) && (exists|j: int|
                        i < j < env.frames@.len() && (#[trigger] env.frames@[j]).is_fun);
            }
            lemma_expr_clovers_combine(
                expr,
                env_clover_keys(env.frames@),
                env_clover_keys(env.frames@),
                Set::<(Seq<char>, int)>::empty(),
            );
        }
        FAST::new(fl.procs, expr)
    }
}

/// An identical copy of a name list: the same keys in the same order.
fn copy_names(ns: &Vec<Name>) -> (r: Vec<Name>)
    ensures
        r@.len() == ns@.len(),
        forall|i: int| 0 <= i < ns@.len() ==> (#[trigger] r@[i]).key() == ns@[i].key(),
{
    let mut out: Vec<Name> = Vec::new();
    let mut i: usize = 0;
    while i < ns.len()
        invariant
            i <= ns@.len(),
            out@.len() == i,
            forall|k: int| 0 <= k < i ==> (#[trigger] out@[k]).key() == ns@[k].key(),
        decreases ns@.len() - i,
    {
        out.push(ns[i].duplicate());
        i += 1;
    }
    out
}

/// An identical copy of a binding list.
fn copy_bindings(bs: &Vec<Binding>) -> (r: Vec<Binding>)
    ensures
        r@.len() == bs@.len(),
        forall|i: int|
            0 <= i < bs@.len() ==> (#[trigger] r@[i]).to.key() == bs@[i].to.key(),
{
    let mut out: Vec<Binding> = Vec::new();
    let mut i: usize = 0;
    while i < bs.len()
        invariant
            i <= bs@.len(),
            out@.len() == i,
            forall|k: int| 0 <= k < i ==> (#[trigger] out@[k]).to.key() == bs@[k].to.key(),
        decreases bs@.len() - i,
    {
        out.push(Binding { from: bs[i].from.duplicate(), to: bs[i].to.duplicate() });
        i += 1;
    }
    out
}

/// The synthetic self parameter's spelling.
fn fresh_self() -> (r: String)
    ensures
        r@ =~= seq!['s', 'e', 'l', 'f'],
{
    proof {
        reveal_strlit("self");
    }
    String::from_str("self")
}

/// The fresh spelling for lifted procedures.
fn fresh_f() -> (r: String)
    ensures
        r@ =~= seq!['f'],
{
    proof {
        reveal_strlit("f");
    }
    String::from_str("f")
}

} // verus!

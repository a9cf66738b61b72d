//! The generation: a granule-addressed, non-moving, mark-and-sweep heap.
//!
//! Memory is an array of granules (64-bit words). Granule index 0 is
//! reserved so that the null word never names a slot. Fresh space is carved
//! off a bump frontier; reclaimed space is reused through a first-fit free
//! list kept with a minimum node size of one granule, so every allocation is
//! served at exactly the requested size.
//!
//! Every live object starts with a two-word header: a link word (a
//! self-reference at rest, room for forwarding during collection) and a type
//! word, a pointer to a `Type` object whose payload gives the granule size
//! and the number of leading reference words of the type's instances. The
//! collector discovers an object's outgoing references from that type
//! object alone.

use vstd::prelude::*;

use crate::freelist::{spec_find_fit, FirstFit, FreeListNode};
use crate::value::{spec_is_pointer, spec_ptr_addr, ValueRef};

verus! {

/// One live object: its starting granule index and its length in granules.
#[derive(Clone, Copy, PartialEq, Eq, Structural)]
pub struct ObjRec {
    pub addr: usize,
    pub len: usize,
}

/// Two runs of granules do not overlap.
pub open spec fn runs_disjoint(a1: int, l1: int, a2: int, l2: int) -> bool {
    a1 + l1 <= a2 || a2 + l2 <= a1
}

/// A generation of the managed heap.
pub struct Generation {
    pub mem: Vec<u64>,
    pub free: FirstFit,
    pub bump: usize,
    pub objects: Vec<ObjRec>,
}

impl Generation {
    /// The structural invariant: the bump frontier lies within memory, every
    /// object and every free run lies below the frontier and above the
    /// reserved null granule, and all of them are pairwise disjoint.
    pub open spec fn inv(&self) -> bool {
        &&& self.free.wf()
        &&& self.free.min == 1
        &&& 1 <= self.bump <= self.mem@.len()
        &&& forall|i: int|
            0 <= i < self.objects@.len() ==> {
                &&& 1 <= (#[trigger] self.objects@[i]).addr
                &&& self.objects@[i].addr + self.objects@[i].len <= self.bump
                &&& self.objects@[i].len >= 1
            }
        &&& forall|k: int|
            0 <= k < self.free.list@.len() ==> {
                &&& 1 <= (#[trigger] self.free.list@[k]).start
                &&& self.free.list@[k].start + self.free.list@[k].len <= self.bump
            }
        &&& forall|i: int, j: int|
            0 <= i < self.objects@.len() && 0 <= j < self.objects@.len() && i != j
                ==> runs_disjoint(
                (#[trigger] self.objects@[i]).addr as int,
                self.objects@[i].len as int,
                (#[trigger] self.objects@[j]).addr as int,
                self.objects@[j].len as int,
            )
        &&& forall|k: int, l: int|
            0 <= k < self.free.list@.len() && 0 <= l < self.free.list@.len() && k != l
                ==> runs_disjoint(
                (#[trigger] self.free.list@[k]).start as int,
                self.free.list@[k].len as int,
                (#[trigger] self.free.list@[l]).start as int,
                self.free.list@[l].len as int,
            )
        &&& forall|i: int, k: int|
            0 <= i < self.objects@.len() && 0 <= k < self.free.list@.len() ==> runs_disjoint(
                (#[trigger] self.objects@[i]).addr as int,
                self.objects@[i].len as int,
                (#[trigger] self.free.list@[k]).start as int,
                self.free.list@[k].len as int,
            )
    }

    /// Is `a` the starting address of a live object?
    pub open spec fn is_obj(&self, a: int) -> bool {
        exists|i: int| 0 <= i < self.objects@.len() && (#[trigger] self.objects@[i]).addr == a
    }

    /// The table index of the live object starting at `a`.
    pub open spec fn idx_of(&self, a: int) -> int {
        choose|i: int| 0 <= i < self.objects@.len() && (#[trigger] self.objects@[i]).addr == a
    }

    /// The length of the live object starting at `a`.
    pub open spec fn len_of(&self, a: int) -> int {
        self.objects@[self.idx_of(a)].len as int
    }

    /// Under the invariant, the table holds at most one object per address.
    pub proof fn lemma_addr_unique(&self, i: int, j: int)
        requires
            self.inv(),
            0 <= i < self.objects@.len(),
            0 <= j < self.objects@.len(),
            self.objects@[i].addr == self.objects@[j].addr,
        ensures
            i == j,
    {
    }

    /// The granule address of the type object of the object at `a`.
    pub open spec fn type_addr_of(&self, a: int) -> int {
        spec_ptr_addr(self.mem@[a + 1])
    }

    /// How many leading payload words of the object at `a` hold references:
    /// read from its type object.
    pub open spec fn ref_len_of(&self, a: int) -> int {
        self.mem@[self.type_addr_of(a) + 3] as int
    }

    /// The object at `a` is well formed for tracing: its type word points
    /// to a live object large enough to be a type, and its traced words,
    /// when pointers, point at live objects.
    pub open spec fn wf_obj(&self, a: int) -> bool {
        &&& self.len_of(a) >= 2
        &&& spec_is_pointer(self.mem@[a + 1])
        &&& self.is_obj(self.type_addr_of(a))
        &&& self.len_of(self.type_addr_of(a)) >= 4
        &&& 2 + self.ref_len_of(a) <= self.len_of(a)
        &&& forall|j: int|
            0 <= j < self.ref_len_of(a) && spec_is_pointer(#[trigger] self.mem@[a + 2 + j])
                ==> self.is_obj(spec_ptr_addr(self.mem@[a + 2 + j]))
    }

    /// The whole heap is well formed for tracing.
    pub open spec fn wf_heap(&self) -> bool {
        forall|i: int|
            0 <= i < self.objects@.len() ==> self.wf_obj((#[trigger] self.objects@[i]).addr as int)
    }

    /// A fresh generation of `limit` granules, with granule 0 reserved.
    pub fn new(limit: usize) -> (r: Generation)
        requires
            limit >= 1,
        ensures
            r.inv(),
            r.mem@.len() == limit,
            r.bump == 1,
            r.objects@.len() == 0,
            r.free.list@.len() == 0,
    {
        let mut mem: Vec<u64> = Vec::new();
        let mut i: usize = 0;
        while i < limit
            invariant
                mem@.len() == i,
                i <= limit,
            decreases limit - i,
        {
            mem.push(0);
            i += 1;
        }
        Generation { mem, free: FirstFit::new(1), bump: 1, objects: Vec::new() }
    }

    /// The capacity of the generation, in granules.
    pub fn limit(&self) -> (r: usize)
        ensures
            r == self.mem@.len(),
    {
        self.mem.len()
    }

    /// Read the granule at `a`.
    pub fn load(&self, a: usize) -> (r: u64)
        requires
            a < self.mem@.len(),
        ensures
            r == self.mem@[a as int],
    {
        self.mem[a]
    }

    /// Write the granule at `a`. The rest of the state is untouched; whether
    /// the write keeps the heap well formed for tracing is the caller's
    /// burden.
    pub fn store(&mut self, a: usize, w: u64)
        requires
            old(self).inv(),
            a < old(self).mem@.len(),
        ensures
            final(self).inv(),
            final(self).mem@ == old(self).mem@.update(a as int, w),
            final(self).objects@ == old(self).objects@,
            final(self).bump == old(self).bump,
            final(self).free.list@ == old(self).free.list@,
            final(self).free.min == old(self).free.min,
    {
        let slot = &mut self.mem[a];
        *slot = w;
    }

    /// Allocate a slot of exactly `wsize` granules: first from the free
    /// list, then from the bump frontier; `None` only when neither has room,
    /// with the generation unchanged. Allocation never touches memory
    /// contents and never moves another object, and the new slot is disjoint
    /// from every live object. The slot's words still hold whatever they
    /// held; the caller must initialize the object's header and payload
    /// before the collector may run.
    pub fn allocate(&mut self, walign: usize, wsize: usize) -> (r: Option<usize>)
        requires
            old(self).inv(),
            wsize >= 1,
            walign >= 1,
        ensures
            final(self).inv(),
            final(self).mem@ == old(self).mem@,
            final(self).free.min == 1,
            match r {
                None => {
                    &&& final(self).objects@ == old(self).objects@
                    &&& final(self).bump == old(self).bump
                    &&& final(self).free.list@ == old(self).free.list@
                    &&& spec_find_fit(old(self).free.list@, wsize as int) is None
                    &&& old(self).bump + wsize > old(self).mem@.len()
                },
                Some(addr) => {
                    &&& final(self).objects@ == old(self).objects@.push(
                        ObjRec { addr, len: wsize },
                    )
                    &&& 1 <= addr
                    &&& addr + wsize <= final(self).bump
                    &&& old(self).bump <= final(self).bump <= old(self).bump + wsize
                    &&& crate::freelist::spec_find_fit(old(self).free.list@, wsize as int) is Some
                        ==> final(self).bump == old(self).bump
                    &&& forall|i: int|
                        0 <= i < old(self).objects@.len() ==> runs_disjoint(
                            addr as int,
                            wsize as int,
                            (#[trigger] old(self).objects@[i]).addr as int,
                            old(self).objects@[i].len as int,
                        )
                },
            },
    {
        let ghost old_free = self.free.list@;
        let got = self.free.allocate_at_least(walign, wsize);
        match got {
            Some(node) => {
                proof {
                    crate::freelist::lemma_find_fit(old_free, wsize as int);
                }
                let addr = node.start;
                self.objects.push(ObjRec { addr, len: wsize });
                proof {
                    let i = spec_find_fit(old_free, wsize as int)->Some_0;
                    let hit = old_free[i];
                    assert forall|k: int| 0 <= k < self.free.list@.len() implies {
                        &&& 1 <= (#[trigger] self.free.list@[k]).start
                        &&& self.free.list@[k].start + self.free.list@[k].len <= self.bump
                    } by {
                        if hit.len - wsize >= 1 {
                            assert(self.free.list@ == old_free.update(
                                i,
                                FreeListNode {
                                    start: (hit.start + wsize) as usize,
                                    len: (hit.len - wsize) as usize,
                                },
                            ));
                        } else {
                            assert(self.free.list@ == old_free.remove(i));
                            assert(self.free.list@[k] == if k < i {
                                old_free[k]
                            } else {
                                old_free[k + 1]
                            });
                        }
                    }
                    if hit.len - wsize < 1 {
                        assert forall|k: int, l: int|
                            0 <= k < self.free.list@.len() && 0 <= l < self.free.list@.len() && k
                                != l implies runs_disjoint(
                            (#[trigger] self.free.list@[k]).start as int,
                            self.free.list@[k].len as int,
                            (#[trigger] self.free.list@[l]).start as int,
                            self.free.list@[l].len as int,
                        ) by {
                            assert(self.free.list@[k] == if k < i {
                                old_free[k]
                            } else {
                                old_free[k + 1]
                            });
                            assert(self.free.list@[l] == if l < i {
                                old_free[l]
                            } else {
                                old_free[l + 1]
                            });
                        }
                        assert forall|oi: int, k: int|
                            0 <= oi < self.objects@.len() && 0 <= k
                                < self.free.list@.len() implies runs_disjoint(
                            (#[trigger] self.objects@[oi]).addr as int,
                            self.objects@[oi].len as int,
                            (#[trigger] self.free.list@[k]).start as int,
                            self.free.list@[k].len as int,
                        ) by {
                            assert(self.free.list@[k] == if k < i {
                                old_free[k]
                            } else {
                                old_free[k + 1]
                            });
                            if oi < old(self).objects@.len() {
                                assert(self.objects@[oi] == old(self).objects@[oi]);
                            } else {
                                assert(self.objects@[oi] == ObjRec { addr, len: wsize });
                            }
                        }
                    }
                }
                Some(addr)
            },
            None => {
                if wsize <= self.mem.len() && self.bump <= self.mem.len() - wsize {
                    let addr = self.bump;
                    self.bump = self.bump + wsize;
                    self.objects.push(ObjRec { addr, len: wsize });
                    Some(addr)
                } else {
                    None
                }
            },
        }
    }
    /// The object at `b` is a tracing successor of the object at `a`: `b`
    /// is `a`'s type object, or a pointer held in one of `a`'s traced words.
    pub open spec fn edge(&self, a: int, b: int) -> bool {
        &&& self.is_obj(a)
        &&& (b == self.type_addr_of(a) || exists|j: int|
            0 <= j < self.ref_len_of(a) && spec_is_pointer(#[trigger] self.mem@[a + 2 + j]) && b
                == spec_ptr_addr(self.mem@[a + 2 + j]))
    }

    /// `s` is closed under tracing successors.
    pub open spec fn closed(&self, s: Set<int>) -> bool {
        forall|a: int, b: int| s.contains(a) && #[trigger] self.edge(a, b) ==> s.contains(b)
    }

    /// `a` is reachable from `roots`: it belongs to every successor-closed
    /// set of addresses that holds the roots.
    pub open spec fn reached(&self, roots: Set<int>, a: int) -> bool {
        forall|s: Set<int>| roots.subset_of(s) && #[trigger] self.closed(s) ==> s.contains(a)
    }

    /// A root is reachable.
    pub proof fn lemma_reached_root(&self, roots: Set<int>, a: int)
        requires
            roots.contains(a),
        ensures
            self.reached(roots, a),
    {
    }

    /// A successor of a reachable object is reachable.
    pub proof fn lemma_reached_edge(&self, roots: Set<int>, a: int, b: int)
        requires
            self.reached(roots, a),
            self.edge(a, b),
        ensures
            self.reached(roots, b),
    {
        assert forall|s: Set<int>| roots.subset_of(s) && #[trigger] self.closed(s) implies
            s.contains(b) by {
            assert(s.contains(a));
        }
    }

    /// Whatever is reachable lies in every closed superset of the roots.
    pub proof fn lemma_reached_closed(&self, roots: Set<int>, s: Set<int>, a: int)
        requires
            roots.subset_of(s),
            self.closed(s),
            self.reached(roots, a),
        ensures
            s.contains(a),
    {
    }

    /// On a well-formed heap with object roots, whatever is reachable is a
    /// live object.
    pub proof fn lemma_reached_is_obj(&self, roots: Set<int>, a: int)
        requires
            self.inv(),
            self.wf_heap(),
            forall|x: int| roots.contains(x) ==> self.is_obj(x),
            self.reached(roots, a),
        ensures
            self.is_obj(a),
    {
        let s = Set::new(|x: int| self.is_obj(x));
        assert forall|x: int, b: int| s.contains(x) && #[trigger] self.edge(x, b) implies
            s.contains(b) by {
            let i = choose|i: int|
                0 <= i < self.objects@.len() && (#[trigger] self.objects@[i]).addr == x;
            assert(self.wf_obj(self.objects@[i].addr as int));
        }
        assert(self.closed(s));
        assert(s.contains(a));
    }

    /// The table index and recorded length behind an object's address.
    pub proof fn lemma_at(&self, i: int)
        requires
            self.inv(),
            0 <= i < self.objects@.len(),
        ensures
            self.is_obj(self.objects@[i].addr as int),
            self.idx_of(self.objects@[i].addr as int) == i,
            self.len_of(self.objects@[i].addr as int) == self.objects@[i].len,
    {
        let a = self.objects@[i].addr as int;
        assert(self.is_obj(a));
        let j = self.idx_of(a);
        self.lemma_addr_unique(i, j);
    }

    /// Find the table index of the object starting at `a`, if any.
    fn find_obj(&self, a: usize) -> (r: Option<usize>)
        ensures
            match r {
                Some(i) => 0 <= i < self.objects@.len() && self.objects@[i as int].addr == a,
                None => !self.is_obj(a as int),
            },
    {
        let mut i: usize = 0;
        while i < self.objects.len()
            invariant
                0 <= i <= self.objects@.len(),
                forall|k: int| 0 <= k < i ==> (#[trigger] self.objects@[k]).addr != a,
            decreases self.objects@.len() - i,
        {
            if self.objects[i].addr == a {
                return Some(i);
            }
            i += 1;
        }
        None
    }
}

/// Does the mark table hold an object starting at `a`?
pub open spec fn marked_has(objects: Seq<ObjRec>, marked: Seq<bool>, a: int) -> bool {
    exists|i: int|
        0 <= i < objects.len() && marked[i] && (#[trigger] objects[i]).addr == a
}

/// The addresses the root slice names: every pointer-tagged word in it.
pub open spec fn spec_root_addrs(roots: Seq<ValueRef>) -> Set<int> {
    Set::new(
        |a: int|
            exists|i: int|
                0 <= i < roots.len() && spec_is_pointer((#[trigger] roots[i]).word) && a
                    == spec_ptr_addr(roots[i].word),
    )
}

/// Is table index `i` scheduled in the worklist?
spec fn in_work(work: Seq<usize>, i: int) -> bool {
    exists|k: int| 0 <= k < work.len() && work[k] == i
}

/// How many entries of the mark table are still unmarked: the measure that
/// shrinks as marking proceeds.
spec fn count_unmarked(m: Seq<bool>) -> int
    decreases m.len(),
{
    if m.len() == 0 {
        0
    } else {
        (if m[0] {
            0int
        } else {
            1int
        }) + count_unmarked(m.drop_first())
    }
}

/// Marking one unmarked entry lowers the measure by exactly one.
proof fn lemma_count_unmarked_update(m: Seq<bool>, t: int)
    requires
        0 <= t < m.len(),
        !m[t],
    ensures
        count_unmarked(m.update(t, true)) == count_unmarked(m) - 1,
    decreases m.len(),
{
    if t == 0 {
        assert(m.update(0, true).drop_first() =~= m.drop_first());
    } else {
        assert(m.update(t, true).drop_first() =~= m.drop_first().update(t - 1, true));
        lemma_count_unmarked_update(m.drop_first(), t - 1);
    }
}

/// The measure is never negative.
proof fn lemma_count_unmarked_nonneg(m: Seq<bool>)
    ensures
        count_unmarked(m) >= 0,
    decreases m.len(),
{
    if m.len() > 0 {
        lemma_count_unmarked_nonneg(m.drop_first());
    }
}

impl Generation {
    /// Mark the object starting at `b`, scheduling it for tracing when it
    /// was unmarked before.
    fn mark_addr(
        &self,
        marked: &mut Vec<bool>,
        work: &mut Vec<usize>,
        b: usize,
        Ghost(roots): Ghost<Set<int>>,
    )
        requires
            self.inv(),
            self.is_obj(b as int),
            self.reached(roots, b as int),
            old(marked)@.len() == self.objects@.len(),
            forall|i: int|
                0 <= i < old(marked)@.len() && old(marked)@[i] ==> self.reached(
                    roots,
                    (#[trigger] self.objects@[i]).addr as int,
                ),
            forall|k: int|
                0 <= k < old(work)@.len() ==> 0 <= (#[trigger] old(work)@[k]) < self.objects@.len()
                    && old(marked)@[old(work)@[k] as int],
        ensures
            final(marked)@.len() == old(marked)@.len(),
            forall|i: int| 0 <= i < old(marked)@.len() && old(marked)@[i] ==> final(marked)@[i],
            forall|i: int|
                0 <= i < final(marked)@.len() && final(marked)@[i] ==> self.reached(
                    roots,
                    (#[trigger] self.objects@[i]).addr as int,
                ),
            forall|k: int|
                0 <= k < final(work)@.len() ==> 0 <= (#[trigger] final(work)@[k])
                    < self.objects@.len() && final(marked)@[final(work)@[k] as int],
            marked_has(self.objects@, final(marked)@, b as int),
            marked_has(self.objects@, old(marked)@, b as int) ==> final(marked)@ == old(marked)@
                && final(work)@ == old(work)@,
            !marked_has(self.objects@, old(marked)@, b as int) ==> exists|t: int|
                {
                    &&& 0 <= t < self.objects@.len()
                    &&& (#[trigger] self.objects@[t]).addr == b
                    &&& !old(marked)@[t]
                    &&& final(marked)@ == old(marked)@.update(t, true)
                    &&& final(work)@ == old(work)@.push(t as usize)
                },
    {
        let found = self.find_obj(b);
        match found {
            Some(ti) => {
                if !marked[ti] {
                    proof {
                        assert(!marked_has(self.objects@, marked@, b as int)) by {
                            if marked_has(self.objects@, marked@, b as int) {
                                let i = choose|i: int|
                                    0 <= i < self.objects@.len() && marked@[i] && (
                                    #[trigger] self.objects@[i]).addr == b;
                                self.lemma_addr_unique(i, ti as int);
                            }
                        }
                    }
                    marked.set(ti, true);
                    work.push(ti);
                    proof {
                        assert(marked_has(self.objects@, marked@, b as int));
                    }
                } else {
                    proof {
                        assert(marked_has(self.objects@, marked@, b as int));
                    }
                }
            },
            None => {
                proof {
                    assert(false);
                }
            },
        }
    }

    /// The mark phase: compute the mark table of the objects reachable
    /// from `roots`, tracing type edges and reference fields through a
    /// worklist.
    #[verifier::rlimit(100)]
    #[verifier::loop_isolation(false)]
    #[verifier::spinoff_prover]
    fn compute_marks(&self, roots: &Vec<ValueRef>) -> (marked: Vec<bool>)
        requires
            self.inv(),
            self.wf_heap(),
            forall|i: int|
                0 <= i < roots@.len() && spec_is_pointer((#[trigger] roots@[i]).word)
                    ==> self.is_obj(spec_ptr_addr(roots@[i].word)),
        ensures
            marked@.len() == self.objects@.len(),
            forall|a: int|
                marked_has(self.objects@, marked@, a) <==> (self.reached(
                    spec_root_addrs(roots@),
                    a,
                ) && self.is_obj(a)),
    {
        let ghost rset = spec_root_addrs(roots@);
        let n = self.objects.len();
        let mut marked: Vec<bool> = Vec::new();
        let mut i0: usize = 0;
        while i0 < n
            invariant
                marked@.len() == i0,
                i0 <= n,
                forall|i: int| 0 <= i < i0 ==> !(#[trigger] marked@[i]),
            decreases n - i0,
        {
            marked.push(false);
            i0 += 1;
        }
        let mut work: Vec<usize> = Vec::new();

        // Scan the roots.
        let mut ri: usize = 0;
        while ri < roots.len()
            invariant
                ri <= roots@.len(),
                marked@.len() == n,
                forall|i: int|
                    0 <= i < n && marked@[i] ==> self.reached(
                        rset,
                        (#[trigger] self.objects@[i]).addr as int,
                    ),
                forall|k: int|
                    0 <= k < work@.len() ==> 0 <= (#[trigger] work@[k]) < n
                        && marked@[work@[k] as int],
                forall|i: int| 0 <= i < n && marked@[i] ==> in_work(work@, i),
                forall|j: int|
                    0 <= j < ri && spec_is_pointer((#[trigger] roots@[j]).word) ==> marked_has(
                        self.objects@,
                        marked@,
                        spec_ptr_addr(roots@[j].word),
                    ),
            decreases roots@.len() - ri,
        {
            let v = roots[ri];
            if v.is_pointer() {
                proof {
                    assert(self.is_obj(spec_ptr_addr(v.word)));
                    assert(rset.contains(spec_ptr_addr(v.word)));
                    self.lemma_reached_root(rset, spec_ptr_addr(v.word));
                    let wi = choose|i: int|
                        0 <= i < self.objects@.len() && (#[trigger] self.objects@[i]).addr
                            == spec_ptr_addr(v.word);
                    assert(self.objects@[wi].addr <= usize::MAX);
                }
                let b = (v.word / 4) as usize;
                let ghost pre_marked = marked@;
                let ghost pre_work = work@;
                self.mark_addr(&mut marked, &mut work, b, Ghost(rset));
                proof {
                    assert forall|i: int| 0 <= i < n && marked@[i] implies in_work(work@, i) by {
                        if pre_marked[i] {
                            let k = choose|k: int| 0 <= k < pre_work.len() && pre_work[k] == i;
                            assert(work@[k] == i);
                        } else {
                            assert(work@[work@.len() - 1] == i);
                        }
                    }
                    assert forall|j: int|
                        0 <= j < ri + 1 && spec_is_pointer(
                            (#[trigger] roots@[j]).word,
                        ) implies marked_has(
                        self.objects@,
                        marked@,
                        spec_ptr_addr(roots@[j].word),
                    ) by {
                        if j < ri {
                            let i = choose|i: int|
                                0 <= i < self.objects@.len() && pre_marked[i] && (
                                #[trigger] self.objects@[i]).addr == spec_ptr_addr(roots@[j].word);
                            assert(marked@[i]);
                        }
                    }
                }
            }
            ri += 1;
        }

        // Trace until the worklist is drained. Every marked entry whose
        // index has left the worklist already has all its successors
        // marked.
        while work.len() > 0
            invariant
                marked@.len() == n,
                forall|i: int|
                    0 <= i < n && marked@[i] ==> self.reached(
                        rset,
                        (#[trigger] self.objects@[i]).addr as int,
                    ),
                forall|k: int|
                    0 <= k < work@.len() ==> 0 <= (#[trigger] work@[k]) < n
                        && marked@[work@[k] as int],
                forall|a: int| rset.contains(a) ==> marked_has(self.objects@, marked@, a),
                forall|i: int, b: int|
                    0 <= i < n && marked@[i] && !in_work(work@, i) && #[trigger] self.edge(
                        self.objects@[i].addr as int,
                        b,
                    ) ==> marked_has(self.objects@, marked@, b),
            decreases count_unmarked(marked@), work@.len(),
        {
            let ghost m0 = marked@;
            proof {
                lemma_count_unmarked_nonneg(marked@);
            }
            self.trace_step(&mut marked, &mut work, Ghost(rset));
            proof {
                lemma_mark_monotone_facts(self, rset, m0, marked@, Seq::empty(), Seq::empty());
                lemma_count_unmarked_nonneg(marked@);
            }
        }

        // The mark table now names exactly the reachable objects.
        proof {
            let s = Set::new(|a: int| marked_has(self.objects@, marked@, a));
            assert forall|a: int, b: int| s.contains(a) && #[trigger] self.edge(a, b) implies
                s.contains(b) by {
                let i = choose|i: int|
                    0 <= i < self.objects@.len() && marked@[i] && (#[trigger] self.objects@[i]).addr
                        == a;
                assert(!in_work(work@, i));
                assert(marked_has(self.objects@, marked@, b));
            }
            assert(self.closed(s));
            assert forall|a: int| rset.contains(a) implies s.contains(a) by {}
            assert(rset.subset_of(s));
            assert forall|a: int| marked_has(self.objects@, marked@, a) implies self.reached(
                rset,
                a,
            ) && self.is_obj(a) by {
                let i = choose|i: int|
                    0 <= i < self.objects@.len() && marked@[i] && (#[trigger] self.objects@[i]).addr
                        == a;
            }
            assert forall|a: int| self.reached(rset, a) && self.is_obj(a) implies marked_has(
                self.objects@,
                marked@,
                a,
            ) by {
                self.lemma_reached_closed(rset, s, a);
            }
        }

        marked
    }

    /// Trace one scheduled object: mark its type object and every live
    /// object a traced word points at.
    #[verifier::rlimit(100)]
    #[verifier::spinoff_prover]
    fn trace_step(
        &self,
        marked: &mut Vec<bool>,
        work: &mut Vec<usize>,
        Ghost(rset): Ghost<Set<int>>,
    )
        requires
            self.inv(),
            self.wf_heap(),
            old(work)@.len() > 0,
            old(marked)@.len() == self.objects@.len(),
            forall|i: int|
                0 <= i < old(marked)@.len() && old(marked)@[i] ==> self.reached(
                    rset,
                    (#[trigger] self.objects@[i]).addr as int,
                ),
            forall|k: int|
                0 <= k < old(work)@.len() ==> 0 <= (#[trigger] old(work)@[k])
                    < self.objects@.len() && old(marked)@[old(work)@[k] as int],
            forall|i: int, b: int|
                0 <= i < old(marked)@.len() && old(marked)@[i] && !in_work(old(work)@, i)
                    && #[trigger] self.edge(self.objects@[i].addr as int, b) ==> marked_has(
                    self.objects@,
                    old(marked)@,
                    b,
                ),
        ensures
            final(marked)@.len() == old(marked)@.len(),
            forall|i: int| 0 <= i < old(marked)@.len() && old(marked)@[i] ==> final(marked)@[i],
            forall|i: int|
                0 <= i < final(marked)@.len() && final(marked)@[i] ==> self.reached(
                    rset,
                    (#[trigger] self.objects@[i]).addr as int,
                ),
            forall|k: int|
                0 <= k < final(work)@.len() ==> 0 <= (#[trigger] final(work)@[k])
                    < self.objects@.len() && final(marked)@[final(work)@[k] as int],
            forall|i: int, b: int|
                0 <= i < final(marked)@.len() && final(marked)@[i] && !in_work(final(work)@, i)
                    && #[trigger] self.edge(self.objects@[i].addr as int, b) ==> marked_has(
                    self.objects@,
                    final(marked)@,
                    b,
                ),
            count_unmarked(final(marked)@) < count_unmarked(old(marked)@) || (final(marked)@
                == old(marked)@ && final(work)@.len() == old(work)@.len() - 1),
    {
        let ghost n = self.objects@.len() as int;
        let popped = work.pop();
        let idx = match popped {
            Some(idx) => idx,
            None => {
                proof {
                    assert(false);
                }
                0
            },
        };
        let o = self.objects[idx];
        proof {
            self.lemma_at(idx as int);
            assert(self.wf_obj(o.addr as int));
            // Popping the index leaves the closure promise intact for every
            // other processed entry.
            assert forall|i2: int, b2: int|
                0 <= i2 < n && marked@[i2] && !in_work(work@, i2) && i2 != idx as int
                    && #[trigger] self.edge(self.objects@[i2].addr as int, b2)
                    implies marked_has(self.objects@, marked@, b2) by {
                if in_work(old(work)@, i2) {
                    let k = choose|k: int| 0 <= k < old(work)@.len() && old(work)@[k] == i2;
                    if k == old(work)@.len() - 1 {
                        assert(i2 == idx as int);
                    } else {
                        assert(work@[k] == i2);
                    }
                }
            }
        }
        let tw = self.load(o.addr + 1);
        proof {
            assert(self.edge(o.addr as int, self.type_addr_of(o.addr as int)));
            self.lemma_reached_edge(rset, o.addr as int, self.type_addr_of(o.addr as int));
            let wi = choose|i: int|
                0 <= i < self.objects@.len() && (#[trigger] self.objects@[i]).addr
                    == self.type_addr_of(o.addr as int);
            assert(self.objects@[wi].addr <= usize::MAX);
        }
        let ta = (tw / 4) as usize;
        let ghost m1 = marked@;
        let ghost w1 = work@;
        self.mark_addr(marked, work, ta, Ghost(rset));
        proof {
            if !marked_has(self.objects@, m1, ta as int) {
                let t = choose|t: int|
                    {
                        &&& 0 <= t < self.objects@.len()
                        &&& (#[trigger] self.objects@[t]).addr == ta
                        &&& !m1[t]
                        &&& marked@ == m1.update(t, true)
                        &&& work@ == w1.push(t as usize)
                    };
                lemma_count_unmarked_update(m1, t);
            }
            lemma_mark_step_keeps_processed_all(
                self,
                m1,
                w1,
                marked@,
                work@,
                ta as int,
                idx as int,
            );
        }
        let ghost ti = self.idx_of(ta as int);
        proof {
            self.lemma_at(ti);
            assert(self.objects@[ti].addr + self.objects@[ti].len <= self.bump);
            assert(self.len_of(ta as int) >= 4);
        }
        let rlw = self.load(ta + 3);
        proof {
            assert(rlw as int == self.ref_len_of(o.addr as int));
            assert(2 + self.ref_len_of(o.addr as int) <= self.len_of(o.addr as int));
            assert(self.len_of(o.addr as int) == o.len);
        }
        let rl = rlw as usize;
        let mut j: usize = 0;
        while j < rl
            invariant
                self.inv(),
                self.wf_heap(),
                n == self.objects@.len(),
                marked@.len() == n,
                old(marked)@.len() == n,
                j <= rl,
                0 <= idx < n,
                o == self.objects@[idx as int],
                o.addr + o.len <= self.bump <= self.mem@.len(),
                rl as int == self.ref_len_of(o.addr as int),
                2 + rl <= o.len,
                self.wf_obj(o.addr as int),
                self.reached(rset, o.addr as int),
                marked@[idx as int],
                marked_has(self.objects@, marked@, self.type_addr_of(o.addr as int)),
                forall|i: int|
                    0 <= i < n && marked@[i] ==> self.reached(
                        rset,
                        (#[trigger] self.objects@[i]).addr as int,
                    ),
                forall|k: int|
                    0 <= k < work@.len() ==> 0 <= (#[trigger] work@[k]) < n
                        && marked@[work@[k] as int],
                forall|i: int| 0 <= i < n && old(marked)@[i] ==> marked@[i],
                forall|i: int, b: int|
                    0 <= i < n && marked@[i] && !in_work(work@, i) && i != idx as int
                        && #[trigger] self.edge(self.objects@[i].addr as int, b) ==> marked_has(
                        self.objects@,
                        marked@,
                        b,
                    ),
                forall|jj: int|
                    0 <= jj < j && spec_is_pointer(#[trigger] self.mem@[o.addr + 2 + jj])
                        ==> marked_has(
                        self.objects@,
                        marked@,
                        spec_ptr_addr(self.mem@[o.addr + 2 + jj]),
                    ),
                count_unmarked(marked@) < count_unmarked(old(marked)@) || (marked@ == old(marked)@ && work@.len() == old(work)@.len() - 1),
            decreases rl - j,
        {
            let w = self.load(o.addr + 2 + j);
            if w % 4 == 0 && w != 0 {
                proof {
                    assert(self.is_obj(spec_ptr_addr(w)));
                    assert(self.edge(o.addr as int, spec_ptr_addr(w)));
                    self.lemma_reached_edge(rset, o.addr as int, spec_ptr_addr(w));
                    let wi = choose|i: int|
                        0 <= i < self.objects@.len() && (#[trigger] self.objects@[i]).addr
                            == spec_ptr_addr(w);
                    assert(self.objects@[wi].addr <= usize::MAX);
                }
                let b = (w / 4) as usize;
                let ghost m2 = marked@;
                let ghost w2 = work@;
                self.mark_addr(marked, work, b, Ghost(rset));
                proof {
                    if !marked_has(self.objects@, m2, b as int) {
                        let t = choose|t: int|
                            {
                                &&& 0 <= t < self.objects@.len()
                                &&& (#[trigger] self.objects@[t]).addr == b
                                &&& !m2[t]
                                &&& marked@ == m2.update(t, true)
                                &&& work@ == w2.push(t as usize)
                            };
                        lemma_count_unmarked_update(m2, t);
                    }
                    lemma_mark_step_keeps_processed_all(
                        self,
                        m2,
                        w2,
                        marked@,
                        work@,
                        b as int,
                        idx as int,
                    );
                    lemma_field_prefix_extend(
                        self.objects@,
                        m2,
                        marked@,
                        self.mem@,
                        o.addr as int,
                        j as int,
                    );
                    lemma_marked_has_monotone(
                        self.objects@,
                        m2,
                        marked@,
                        self.type_addr_of(o.addr as int),
                    );
                }
            }
            j += 1;
        }
        proof {
            // The popped entry now has every successor marked.
            assert forall|i: int, b: int|
                0 <= i < n && marked@[i] && !in_work(work@, i) && #[trigger] self.edge(
                    self.objects@[i].addr as int,
                    b,
                ) implies marked_has(self.objects@, marked@, b) by {
                if i == idx as int {
                    if b != self.type_addr_of(o.addr as int) {
                        let jj = choose|jj: int|
                            0 <= jj < self.ref_len_of(o.addr as int) && spec_is_pointer(
                                #[trigger] self.mem@[o.addr + 2 + jj],
                            ) && b == spec_ptr_addr(self.mem@[o.addr + 2 + jj]);
                        assert(marked_has(
                            self.objects@,
                            marked@,
                            spec_ptr_addr(self.mem@[o.addr + 2 + jj]),
                        ));
                    }
                }
            }
        }
    }

    /// The sweep phase: keep exactly the marked objects and return every
    /// unmarked object's run to the free list. The mark table must be
    /// closed under tracing successors, so that the survivors still form a
    /// well-formed heap.
    #[verifier::rlimit(100)]
    #[verifier::spinoff_prover]
    fn sweep(&mut self, marked: &Vec<bool>)
        requires
            old(self).inv(),
            old(self).wf_heap(),
            marked@.len() == old(self).objects@.len(),
            forall|i: int, b: int|
                0 <= i < marked@.len() && marked@[i] && #[trigger] old(self).edge(
                    old(self).objects@[i].addr as int,
                    b,
                ) ==> marked_has(old(self).objects@, marked@, b),
        ensures
            final(self).inv(),
            final(self).wf_heap(),
            final(self).mem@ == old(self).mem@,
            final(self).bump == old(self).bump,
            final(self).free.min == 1,
            forall|a: int| final(self).is_obj(a) <==> marked_has(old(self).objects@, marked@, a),
            forall|a: int|
                marked_has(old(self).objects@, marked@, a) ==> final(self).len_of(a) == old(self).len_of(a),
            forall|k: int|
                0 <= k < old(self).free.list@.len() ==> final(self).free.list@.contains(
                    #[trigger] old(self).free.list@[k],
                ),
            forall|i: int|
                0 <= i < old(self).objects@.len() && !marked@[i] ==> final(self).free.list@.contains(
                    FreeListNode {
                        start: (#[trigger] old(self).objects@[i]).addr,
                        len: old(self).objects@[i].len,
                    },
                ),
    {
        let n = self.objects.len();
        let ghost marks = marked@;

        // Partition the table into survivors and freed runs.
        let mut kept: Vec<ObjRec> = Vec::new();
        let mut freed: Vec<FreeListNode> = Vec::new();
        let ghost mut src: Seq<int> = Seq::empty();
        let ghost mut fsrc: Seq<int> = Seq::empty();
        let mut i: usize = 0;
        while i < n
            invariant
                i <= n,
                n == self.objects@.len(),
                marks == marked@,
                marks.len() == n,
                src.len() == kept@.len(),
                fsrc.len() == freed@.len(),
                forall|k: int|
                    0 <= k < src.len() ==> 0 <= #[trigger] src[k] < i && marks[src[k]]
                        && kept@[k] == self.objects@[src[k]],
                forall|k1: int, k2: int| 0 <= k1 < k2 < src.len() ==> src[k1] < src[k2],
                forall|jj: int|
                    0 <= jj < i && marks[jj] ==> exists|k: int|
                        0 <= k < src.len() && #[trigger] src[k] == jj,
                forall|k: int|
                    0 <= k < fsrc.len() ==> 0 <= #[trigger] fsrc[k] < i && !marks[fsrc[k]]
                        && freed@[k] == (FreeListNode {
                        start: self.objects@[fsrc[k]].addr,
                        len: self.objects@[fsrc[k]].len,
                    }),
                forall|k1: int, k2: int| 0 <= k1 < k2 < fsrc.len() ==> fsrc[k1] < fsrc[k2],
                forall|jj: int|
                    0 <= jj < i && !marks[jj] ==> exists|k: int|
                        0 <= k < fsrc.len() && #[trigger] fsrc[k] == jj,
            decreases n - i,
        {
            let o = self.objects[i];
            if marked[i] {
                kept.push(o);
                proof {
                    let src0 = src;
                    src = src.push(i as int);
                    assert forall|jj: int| 0 <= jj < i + 1 && marks[jj] implies exists|k: int|
                        0 <= k < src.len() && #[trigger] src[k] == jj by {
                        if jj < i {
                            let k = choose|k: int| 0 <= k < src0.len() && #[trigger] src0[k] == jj;
                            assert(src[k] == jj);
                        } else {
                            assert(src[src.len() - 1] == jj);
                        }
                    }
                }
            } else {
                freed.push(FreeListNode { start: o.addr, len: o.len });
                proof {
                    let fsrc0 = fsrc;
                    fsrc = fsrc.push(i as int);
                    assert forall|jj: int| 0 <= jj < i + 1 && !marks[jj] implies exists|k: int|
                        0 <= k < fsrc.len() && #[trigger] fsrc[k] == jj by {
                        if jj < i {
                            let k = choose|k: int|
                                0 <= k < fsrc0.len() && #[trigger] fsrc0[k] == jj;
                            assert(fsrc[k] == jj);
                        } else {
                            assert(fsrc[fsrc.len() - 1] == jj);
                        }
                    }
                }
            }
            i += 1;
        }

        // Return the freed runs to the free list, newest first.
        let ghost old_free = self.free.list@;
        let nf = freed.len();
        let mut t: usize = 0;
        while t < nf
            invariant
                t <= nf,
                old(self).inv(),
                nf == freed@.len(),
                nf == fsrc.len(),
                n == self.objects@.len(),
                marks == marked@,
                forall|k: int|
                    0 <= k < fsrc.len() ==> 0 <= #[trigger] fsrc[k] < n && !marks[fsrc[k]]
                        && freed@[k] == (FreeListNode {
                        start: self.objects@[fsrc[k]].addr,
                        len: self.objects@[fsrc[k]].len,
                    }),
                self.objects@ == old(self).objects@,
                self.mem@ == old(self).mem@,
                self.bump == old(self).bump,
                self.free.wf(),
                self.free.min == 1,
                self.free.list@ == freed@.subrange(0, t as int).reverse() + old_free,
            decreases nf - t,
        {
            let node = freed[t];
            proof {
                let k = fsrc[t as int];
                assert(self.objects@[k] == old(self).objects@[k]);
                assert(old(self).objects@[k].addr + old(self).objects@[k].len <= old(self).bump);
                assert(old(self).objects@[k].len >= 1);
            }
            let ghost pre_list = self.free.list@;
            let gone = {
                let pool = &mut self.free;
                pool.try_release(node)
            };
            proof {
                assert(self.free.list@ == seq![node] + pre_list);
                assert(freed@.subrange(0, t + 1).reverse() =~= seq![freed@[t as int]]
                    + freed@.subrange(0, t as int).reverse());
                assert(self.free.list@ =~= freed@.subrange(0, t + 1).reverse() + old_free);
            }
            t += 1;
        }

        self.objects = kept;
        proof {
            assert(freed@.subrange(0, nf as int) =~= freed@);
            lemma_sweep_finish(*old(self), *self, marks, src, fsrc, freed@);
        }
    }

    /// Mark-and-sweep collection. Marks transitively from `roots`, using
    /// each object's type object to discover its references; sweeps by
    /// returning every unmarked object's run to the free list.
    ///
    /// The contract is the collector's soundness: memory contents are
    /// untouched (the collector does not move), an address is live
    /// afterwards exactly when it was reachable from the roots before, every
    /// reachable object keeps its recorded extent, the free list keeps every
    /// run it had, and every unreachable object's storage is returned to
    /// the free list. Roots are taken by mutable reference so that a moving
    /// collector could rewrite them; this collector leaves them untouched.
    #[verifier::spinoff_prover]
    pub fn mark_and_sweep(&mut self, roots: &mut Vec<ValueRef>)
        requires
            old(self).inv(),
            old(self).wf_heap(),
            forall|i: int|
                0 <= i < old(roots)@.len() && spec_is_pointer((#[trigger] old(roots)@[i]).word)
                    ==> old(self).is_obj(spec_ptr_addr(old(roots)@[i].word)),
        ensures
            final(self).inv(),
            final(self).wf_heap(),
            final(roots)@ == old(roots)@,
            final(self).mem@ == old(self).mem@,
            final(self).bump == old(self).bump,
            final(self).free.min == 1,
            forall|a: int|
                final(self).is_obj(a) <==> old(self).reached(spec_root_addrs(old(roots)@), a)
                    && old(self).is_obj(a),
            forall|a: int|
                old(self).reached(spec_root_addrs(old(roots)@), a) && old(self).is_obj(a)
                    ==> final(self).len_of(a) == old(self).len_of(a),
            forall|k: int|
                0 <= k < old(self).free.list@.len() ==> final(self).free.list@.contains(
                    #[trigger] old(self).free.list@[k],
                ),
            forall|i: int|
                0 <= i < old(self).objects@.len() && !old(self).reached(
                    spec_root_addrs(old(roots)@),
                    (#[trigger] old(self).objects@[i]).addr as int,
                ) ==> final(self).free.list@.contains(
                    FreeListNode {
                        start: old(self).objects@[i].addr,
                        len: old(self).objects@[i].len,
                    },
                ),
    {
        let ghost rset = spec_root_addrs(roots@);
        let marked = self.compute_marks(roots);
        proof {
            // The marked set is closed under tracing successors: a marked
            // object is reachable, so its successors are reachable objects,
            // hence marked.
            assert forall|i: int, b: int|
                0 <= i < marked@.len() && marked@[i] && #[trigger] self.edge(
                    self.objects@[i].addr as int,
                    b,
                ) implies marked_has(self.objects@, marked@, b) by {
                self.lemma_at(i);
                let a = self.objects@[i].addr as int;
                assert(marked_has(self.objects@, marked@, a));
                self.lemma_reached_edge(rset, a, b);
                assert(self.wf_obj(a));
                if b != self.type_addr_of(a) {
                    let j = choose|j: int|
                        0 <= j < self.ref_len_of(a) && spec_is_pointer(
                            #[trigger] self.mem@[a + 2 + j],
                        ) && b == spec_ptr_addr(self.mem@[a + 2 + j]);
                    assert(self.is_obj(b));
                }
            }
        }
        let ghost mid = *self;
        self.sweep(&marked);
        proof {
            assert forall|i: int|
                0 <= i < old(self).objects@.len() && !old(self).reached(
                    rset,
                    (#[trigger] old(self).objects@[i]).addr as int,
                ) implies self.free.list@.contains(
                FreeListNode {
                    start: old(self).objects@[i].addr,
                    len: old(self).objects@[i].len,
                },
            ) by {
                old(self).lemma_at(i);
                if marked@[i] {
                    assert(marked_has(old(self).objects@, marked@, old(self).objects@[i].addr as int));
                }
            }
        }
    }
}

/// Finishing the sweep: with the survivors and freed runs laid out as the
/// partition loops left them, the new generation satisfies the structural
/// invariant, is well formed for tracing, holds exactly the marked
/// objects at their old extents, and its free list holds every old run
/// and every freed run.
#[verifier::rlimit(100)]
proof fn lemma_sweep_finish(
    g: Generation,
    fin: Generation,
    marks: Seq<bool>,
    src: Seq<int>,
    fsrc: Seq<int>,
    freed: Seq<FreeListNode>,
)
    requires
        g.inv(),
        g.wf_heap(),
        marks.len() == g.objects@.len(),
        forall|i: int, b: int|
            0 <= i < marks.len() && marks[i] && #[trigger] g.edge(g.objects@[i].addr as int, b)
                ==> marked_has(g.objects@, marks, b),
        fin.mem@ == g.mem@,
        fin.bump == g.bump,
        fin.free.wf(),
        fin.free.min == 1,
        fin.free.list@ == freed.reverse() + g.free.list@,
        fin.objects@.len() == src.len(),
        forall|k: int|
            0 <= k < src.len() ==> 0 <= #[trigger] src[k] < g.objects@.len() && marks[src[k]]
                && fin.objects@[k] == g.objects@[src[k]],
        forall|k1: int, k2: int| 0 <= k1 < k2 < src.len() ==> src[k1] < src[k2],
        forall|jj: int|
            0 <= jj < g.objects@.len() && marks[jj] ==> exists|k: int|
                0 <= k < src.len() && #[trigger] src[k] == jj,
        fsrc.len() == freed.len(),
        forall|k: int|
            0 <= k < fsrc.len() ==> 0 <= #[trigger] fsrc[k] < g.objects@.len() && !marks[fsrc[k]]
                && freed[k] == (FreeListNode {
                start: g.objects@[fsrc[k]].addr,
                len: g.objects@[fsrc[k]].len,
            }),
        forall|k1: int, k2: int| 0 <= k1 < k2 < fsrc.len() ==> fsrc[k1] < fsrc[k2],
        forall|jj: int|
            0 <= jj < g.objects@.len() && !marks[jj] ==> exists|k: int|
                0 <= k < fsrc.len() && #[trigger] fsrc[k] == jj,
    ensures
        fin.inv(),
        fin.wf_heap(),
        forall|a: int| fin.is_obj(a) <==> marked_has(g.objects@, marks, a),
        forall|a: int| marked_has(g.objects@, marks, a) ==> fin.len_of(a) == g.len_of(a),
        forall|k: int|
            0 <= k < g.free.list@.len() ==> fin.free.list@.contains(#[trigger] g.free.list@[k]),
        forall|i: int|
            0 <= i < g.objects@.len() && !marks[i] ==> fin.free.list@.contains(
                FreeListNode {
                    start: (#[trigger] g.objects@[i]).addr,
                    len: g.objects@[i].len,
                },
            ),
{
                        // Any element of the final free list is an old free run or a
            // freed object's run; every pair of them is disjoint, and each
            // is disjoint from every surviving object.
            let nfree = fin.free.list@.len();
            assert forall|k: int| 0 <= k < nfree implies {
                &&& 1 <= (#[trigger] fin.free.list@[k]).start
                &&& fin.free.list@[k].start + fin.free.list@[k].len <= fin.bump
            } by {
                if k < (freed.len() as int) {
                    assert(fin.free.list@[k] == freed[freed.len() - 1 - k]);
                    let s0 = fsrc[freed.len() - 1 - k];
                    assert(g.objects@[s0].addr + g.objects@[s0].len <= g.bump);
                } else {
                    assert(fin.free.list@[k] == g.free.list@[k - freed.len()]);
                }
            }
            assert forall|k1: int, k2: int|
                0 <= k1 < nfree && 0 <= k2 < nfree && k1 != k2 implies runs_disjoint(
                (#[trigger] fin.free.list@[k1]).start as int,
                fin.free.list@[k1].len as int,
                (#[trigger] fin.free.list@[k2]).start as int,
                fin.free.list@[k2].len as int,
            ) by {
                let m = freed.len() as int;
                if k1 < m && k2 < m {
                    assert(fin.free.list@[k1] == freed[m - 1 - k1]);
                    assert(fin.free.list@[k2] == freed[m - 1 - k2]);
                    let s1 = fsrc[m - 1 - k1];
                    let s2 = fsrc[m - 1 - k2];
                    if m - 1 - k1 < m - 1 - k2 {
                        assert(s1 < s2);
                    } else {
                        assert(s2 < s1);
                    }
                    assert(runs_disjoint(
                        g.objects@[s1].addr as int,
                        g.objects@[s1].len as int,
                        g.objects@[s2].addr as int,
                        g.objects@[s2].len as int,
                    ));
                } else if k1 < m {
                    assert(fin.free.list@[k1] == freed[m - 1 - k1]);
                    assert(fin.free.list@[k2] == g.free.list@[k2 - m]);
                    let s1 = fsrc[m - 1 - k1];
                    assert(runs_disjoint(
                        g.objects@[s1].addr as int,
                        g.objects@[s1].len as int,
                        g.free.list@[k2 - m].start as int,
                        g.free.list@[k2 - m].len as int,
                    ));
                } else if k2 < m {
                    assert(fin.free.list@[k2] == freed[m - 1 - k2]);
                    assert(fin.free.list@[k1] == g.free.list@[k1 - m]);
                    let s2 = fsrc[m - 1 - k2];
                    assert(runs_disjoint(
                        g.objects@[s2].addr as int,
                        g.objects@[s2].len as int,
                        g.free.list@[k1 - m].start as int,
                        g.free.list@[k1 - m].len as int,
                    ));
                } else {
                    assert(fin.free.list@[k1] == g.free.list@[k1 - m]);
                    assert(fin.free.list@[k2] == g.free.list@[k2 - m]);
                }
            }
            assert forall|k: int, l: int|
                0 <= k < fin.objects@.len() && 0 <= l < nfree implies runs_disjoint(
                (#[trigger] fin.objects@[k]).addr as int,
                fin.objects@[k].len as int,
                (#[trigger] fin.free.list@[l]).start as int,
                fin.free.list@[l].len as int,
            ) by {
                assert(fin.objects@[k] == g.objects@[src[k]]);
                assert(marks[src[k]]);
                let m = freed.len() as int;
                if l < m {
                    assert(fin.free.list@[l] == freed[m - 1 - l]);
                    let s2 = fsrc[m - 1 - l];
                    assert(!marks[s2]);
                    assert(src[k] != s2);
                    assert(runs_disjoint(
                        g.objects@[src[k]].addr as int,
                        g.objects@[src[k]].len as int,
                        g.objects@[s2].addr as int,
                        g.objects@[s2].len as int,
                    ));
                } else {
                    assert(fin.free.list@[l] == g.free.list@[l - m]);
                    assert(runs_disjoint(
                        g.objects@[src[k]].addr as int,
                        g.objects@[src[k]].len as int,
                        g.free.list@[l - m].start as int,
                        g.free.list@[l - m].len as int,
                    ));
                }
            }
            assert forall|k1: int, k2: int|
                0 <= k1 < fin.objects@.len() && 0 <= k2 < fin.objects@.len() && k1
                    != k2 implies runs_disjoint(
                (#[trigger] fin.objects@[k1]).addr as int,
                fin.objects@[k1].len as int,
                (#[trigger] fin.objects@[k2]).addr as int,
                fin.objects@[k2].len as int,
            ) by {
                assert(fin.objects@[k1] == g.objects@[src[k1]]);
                assert(fin.objects@[k2] == g.objects@[src[k2]]);
                if k1 < k2 {
                    assert(src[k1] < src[k2]);
                } else {
                    assert(src[k2] < src[k1]);
                }
            }
            assert forall|k: int| 0 <= k < fin.objects@.len() implies {
                &&& 1 <= (#[trigger] fin.objects@[k]).addr
                &&& fin.objects@[k].addr + fin.objects@[k].len <= fin.bump
                &&& fin.objects@[k].len >= 1
            } by {
                assert(fin.objects@[k] == g.objects@[src[k]]);
            }
            assert(fin.inv());
            // The survivors are exactly the marked objects.
            assert forall|a: int| fin.is_obj(a) implies marked_has(g.objects@, marks, a) by {
                let k = choose|k: int|
                    0 <= k < fin.objects@.len() && (#[trigger] fin.objects@[k]).addr == a;
                assert(fin.objects@[k] == g.objects@[src[k]]);
            }
            assert forall|a: int| marked_has(g.objects@, marks, a) implies fin.is_obj(a) by {
                let j = choose|j: int|
                    0 <= j < g.objects@.len() && marks[j] && (#[trigger] g.objects@[j]).addr == a;
                let k = choose|k: int| 0 <= k < src.len() && #[trigger] src[k] == j;
                assert(fin.objects@[k] == g.objects@[j]);
            }
            // Surviving objects keep their recorded extent.
            assert forall|a: int| marked_has(g.objects@, marks, a) implies fin.len_of(a)
                == g.len_of(a) by {
                let j = choose|j: int|
                    0 <= j < g.objects@.len() && marks[j] && (#[trigger] g.objects@[j]).addr == a;
                let k = choose|k: int| 0 <= k < src.len() && #[trigger] src[k] == j;
                assert(fin.objects@[k] == g.objects@[j]);
                fin.lemma_at(k);
                g.lemma_at(j);
            }
            // The old free runs survive, and every unmarked object's run
            // has been filed.
            assert forall|k: int| 0 <= k < g.free.list@.len() implies fin.free.list@.contains(
                #[trigger] g.free.list@[k],
            ) by {
                assert(fin.free.list@[freed.len() + k] == g.free.list@[k]);
            }
            assert forall|j: int| 0 <= j < g.objects@.len() && !marks[j] implies
                fin.free.list@.contains(
                FreeListNode { start: (#[trigger] g.objects@[j]).addr, len: g.objects@[j].len },
            ) by {
                let k = choose|k: int| 0 <= k < fsrc.len() && #[trigger] fsrc[k] == j;
                assert(freed[k] == (FreeListNode {
                    start: g.objects@[j].addr,
                    len: g.objects@[j].len,
                }));
                assert(fin.free.list@[freed.len() - 1 - k] == freed[k]);
            }
            // The surviving heap is still well formed for tracing: every
            // kept object's successors were marked, hence kept.
            assert forall|k: int| 0 <= k < fin.objects@.len() implies fin.wf_obj(
                (#[trigger] fin.objects@[k]).addr as int,
            ) by {
                let a = fin.objects@[k].addr as int;
                assert(fin.objects@[k] == g.objects@[src[k]]);
                assert(g.wf_obj(a));
                assert(marks[src[k]]);
                assert(marked_has(g.objects@, marks, a));
                fin.lemma_at(k);
                g.lemma_at(src[k]);
                assert(fin.len_of(a) == g.len_of(a));
                let ta = g.type_addr_of(a);
                assert(fin.type_addr_of(a) == ta);
                assert(g.edge(a, ta));
                assert(marked_has(g.objects@, marks, ta));
                assert(fin.is_obj(ta));
                assert(fin.len_of(ta) == g.len_of(ta));
                assert(fin.ref_len_of(a) == g.ref_len_of(a));
                assert forall|j: int|
                    0 <= j < fin.ref_len_of(a) && spec_is_pointer(
                        #[trigger] fin.mem@[a + 2 + j],
                    ) implies fin.is_obj(spec_ptr_addr(fin.mem@[a + 2 + j])) by {
                    let b = spec_ptr_addr(g.mem@[a + 2 + j]);
                    assert(g.is_obj(b));
                    assert(g.edge(a, b));
                    assert(marked_has(g.objects@, marks, b));
                }
            }
            assert(fin.wf_heap());
}

/// Growth of the mark table keeps what it has, and what the worklist
/// promises of its entries.
proof fn lemma_marked_has_monotone(objects: Seq<ObjRec>, m1: Seq<bool>, m2: Seq<bool>, a: int)
    requires
        m1.len() == m2.len() == objects.len(),
        forall|i: int| 0 <= i < m1.len() && m1[i] ==> m2[i],
        marked_has(objects, m1, a),
    ensures
        marked_has(objects, m2, a),
{
    let i = choose|i: int|
        0 <= i < objects.len() && m1[i] && (#[trigger] objects[i]).addr == a;
    assert(m2[i] && objects[i].addr == a);
}

/// The whole-table form of `lemma_mark_step_keeps_processed`.
proof fn lemma_mark_step_keeps_processed_all(
    g: &Generation,
    m_pre: Seq<bool>,
    w_pre: Seq<usize>,
    m_post: Seq<bool>,
    w_post: Seq<usize>,
    b: int,
    idx: int,
)
    requires
        m_pre.len() == g.objects@.len(),
        m_post.len() == m_pre.len(),
        forall|i2: int, b2: int|
            0 <= i2 < m_pre.len() && m_pre[i2] && !in_work(w_pre, i2) && i2 != idx
                && #[trigger] g.edge(g.objects@[i2].addr as int, b2) ==> marked_has(
                g.objects@,
                m_pre,
                b2,
            ),
        marked_has(g.objects@, m_pre, b) ==> m_post == m_pre && w_post == w_pre,
        !marked_has(g.objects@, m_pre, b) ==> exists|t: int|
            {
                &&& 0 <= t < g.objects@.len()
                &&& (#[trigger] g.objects@[t]).addr == b
                &&& !m_pre[t]
                &&& m_post == m_pre.update(t, true)
                &&& w_post == w_pre.push(t as usize)
            },
    ensures
        forall|i: int, bb: int|
            0 <= i < m_post.len() && m_post[i] && !in_work(w_post, i) && i != idx
                && #[trigger] g.edge(g.objects@[i].addr as int, bb) ==> marked_has(
                g.objects@,
                m_post,
                bb,
            ),
{
    assert forall|i: int, bb: int|
        0 <= i < m_post.len() && m_post[i] && !in_work(w_post, i) && i != idx
            && #[trigger] g.edge(g.objects@[i].addr as int, bb) implies marked_has(
        g.objects@,
        m_post,
        bb,
    ) by {
        lemma_mark_step_keeps_processed(g, m_pre, w_pre, m_post, w_post, b, idx, i, bb);
    }
}

/// Extending the scanned-prefix promise by the word just traced.
proof fn lemma_field_prefix_extend(
    objects: Seq<ObjRec>,
    m_pre: Seq<bool>,
    m_post: Seq<bool>,
    mem: Seq<u64>,
    base: int,
    j: int,
)
    requires
        m_pre.len() == m_post.len() == objects.len(),
        forall|i: int| 0 <= i < m_pre.len() && m_pre[i] ==> m_post[i],
        forall|jj: int|
            0 <= jj < j && spec_is_pointer(#[trigger] mem[base + 2 + jj]) ==> marked_has(
                objects,
                m_pre,
                spec_ptr_addr(mem[base + 2 + jj]),
            ),
        spec_is_pointer(mem[base + 2 + j]) ==> marked_has(
            objects,
            m_post,
            spec_ptr_addr(mem[base + 2 + j]),
        ),
    ensures
        forall|jj: int|
            0 <= jj < j + 1 && spec_is_pointer(#[trigger] mem[base + 2 + jj]) ==> marked_has(
                objects,
                m_post,
                spec_ptr_addr(mem[base + 2 + jj]),
            ),
{
    assert forall|jj: int|
        0 <= jj < j + 1 && spec_is_pointer(#[trigger] mem[base + 2 + jj]) implies marked_has(
        objects,
        m_post,
        spec_ptr_addr(mem[base + 2 + jj]),
    ) by {
        if jj < j {
            lemma_marked_has_monotone(objects, m_pre, m_post, spec_ptr_addr(mem[base + 2 + jj]));
        }
    }
}

/// One marking step keeps the closure promise of every processed entry
/// other than the one being traced: a newly marked target sits in the
/// worklist, and everything already promised only grows.
proof fn lemma_mark_step_keeps_processed(
    g: &Generation,
    m_pre: Seq<bool>,
    w_pre: Seq<usize>,
    m_post: Seq<bool>,
    w_post: Seq<usize>,
    b: int,
    idx: int,
    i: int,
    bb: int,
)
    requires
        m_pre.len() == g.objects@.len(),
        m_post.len() == m_pre.len(),
        forall|i2: int, b2: int|
            0 <= i2 < m_pre.len() && m_pre[i2] && !in_work(w_pre, i2) && i2 != idx
                && #[trigger] g.edge(g.objects@[i2].addr as int, b2) ==> marked_has(
                g.objects@,
                m_pre,
                b2,
            ),
        marked_has(g.objects@, m_pre, b) ==> m_post == m_pre && w_post == w_pre,
        !marked_has(g.objects@, m_pre, b) ==> exists|t: int|
            {
                &&& 0 <= t < g.objects@.len()
                &&& (#[trigger] g.objects@[t]).addr == b
                &&& !m_pre[t]
                &&& m_post == m_pre.update(t, true)
                &&& w_post == w_pre.push(t as usize)
            },
        0 <= i < m_post.len(),
        m_post[i],
        !in_work(w_post, i),
        i != idx,
        g.edge(g.objects@[i].addr as int, bb),
    ensures
        marked_has(g.objects@, m_post, bb),
{
    vstd::std_specs::vec::axiom_spec_len(&g.objects);
    if marked_has(g.objects@, m_pre, b) {
        assert(marked_has(g.objects@, m_pre, bb));
    } else {
        let t = choose|t: int|
            {
                &&& 0 <= t < g.objects@.len()
                &&& (#[trigger] g.objects@[t]).addr == b
                &&& !m_pre[t]
                &&& m_post == m_pre.update(t, true)
                &&& w_post == w_pre.push(t as usize)
            };
        if i == t {
            assert(w_post[w_post.len() - 1] == t as usize);
            assert(in_work(w_post, i));
        } else {
            assert(m_pre[i]);
            if in_work(w_pre, i) {
                let k = choose|k: int| 0 <= k < w_pre.len() && w_pre[k] == i;
                assert(w_post[k] == i);
                assert(in_work(w_post, i));
            }
            assert(marked_has(g.objects@, m_pre, bb));
            lemma_marked_has_monotone(g.objects@, m_pre, m_post, bb);
        }
    }
}

/// After one `mark_addr` call the root-coverage fact is kept.
proof fn lemma_mark_monotone_facts(
    g: &Generation,
    rset: Set<int>,
    m1: Seq<bool>,
    m2: Seq<bool>,
    w1: Seq<usize>,
    w2: Seq<usize>,
)
    requires
        m1.len() == m2.len() == g.objects@.len(),
        forall|i: int| 0 <= i < m1.len() && m1[i] ==> m2[i],
        forall|a: int| rset.contains(a) ==> marked_has(g.objects@, m1, a),
    ensures
        forall|a: int| rset.contains(a) ==> marked_has(g.objects@, m2, a),
{
    assert forall|a: int| rset.contains(a) implies marked_has(g.objects@, m2, a) by {
        lemma_marked_has_monotone(g.objects@, m1, m2, a);
    }
}

} // verus!

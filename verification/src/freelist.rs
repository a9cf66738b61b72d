//! Free-list pools: reuse of reclaimed heap runs.
//!
//! Two strategies. The bucketed pool keeps an indexed array of size classes;
//! a released run is pushed on the class `free_index` names and allocation
//! pops from the class `alloc_index` names, walking to higher classes on a
//! miss. The first-fit pool keeps a single list of variable-sized runs;
//! allocation walks until it finds a run at least as large as requested and
//! splits it in place when the remainder can stand alone as a node.
//!
//! An allocator may return a run larger than requested; the caller records
//! the actual size from the returned node.

use vstd::prelude::*;

verus! {

/// A free run of `len` granules starting at granule index `start`.
///
/// In the running heap a free-list node occupies the first words of the run
/// it describes; here the node carries the run's place and length as plain
/// values.
#[derive(Clone, Copy, PartialEq, Eq, Structural)]
pub struct FreeListNode {
    pub start: usize,
    pub len: usize,
}

impl FreeListNode {
    /// The length of the run, in granules.
    pub fn len(&self) -> (r: usize)
        ensures
            r == self.len,
    {
        self.len
    }
}

/// Computes free-list indices from granule counts.
///
/// Law: `alloc_index(x) >= free_index(x)` for every `x > 0`, so that a run
/// found under `alloc_index(x)` or any higher class is always large enough
/// to serve an allocation of `x`.
pub trait IndexCalculation {
    /// Classes hold nothing below one granule, and every class at or above
    /// `alloc_index(n)` holds only runs of at least `n` granules.
    proof fn law_classes(n: int, i: int)
        requires
            n >= 1,
            i >= 0,
        ensures
            Self::spec_min(i) >= 1,
            i >= Self::spec_alloc_index(n) ==> Self::spec_min(i) >= n,
    ;

    /// The minimum size of nodes under class `i`.
    spec fn spec_min(i: int) -> int;

    /// The non-inclusive upper bound of node size under class `i`.
    spec fn spec_max(i: int) -> int;

    /// The index of the first class whose every node can serve an
    /// allocation of `n` granules.
    spec fn spec_alloc_index(n: int) -> int;

    /// The index of the class a freed run of `n` granules belongs to.
    spec fn spec_free_index(n: int) -> int;

    /// The law of the two indices: a released run is never filed above the
    /// class where an allocation of the same size starts looking.
    proof fn law_alloc_index_ge_free_index(x: int)
        requires
            x > 0,
        ensures
            Self::spec_alloc_index(x) >= Self::spec_free_index(x),
            Self::spec_min(Self::spec_free_index(x)) <= x < Self::spec_max(Self::spec_free_index(x)),
            Self::spec_min(Self::spec_alloc_index(x)) >= x,
    ;

    /// Get the index of the first class that can support allocation of `n`
    /// granules.
    fn alloc_index(n: usize) -> (r: usize)
        requires
            n >= 1,
        ensures
            r == Self::spec_alloc_index(n as int),
    ;

    /// Get the index of the class where a run of `n` granules is freed to.
    fn free_index(n: usize) -> (r: usize)
        requires
            n >= 1,
        ensures
            r == Self::spec_free_index(n as int),
    ;

    /// The minimum size of nodes under `index`.
    fn min(index: usize) -> (r: usize)
        requires
            Self::spec_min(index as int) <= usize::MAX,
        ensures
            r == Self::spec_min(index as int),
    ;

    /// The non-inclusive upper bound of node size under `index`.
    fn max(index: usize) -> (r: usize)
        requires
            Self::spec_max(index as int) <= usize::MAX,
        ensures
            r == Self::spec_max(index as int),
    ;
}

/// Exact-fit size classes: class `i` holds runs of exactly `i + 1` granules,
/// so an allocation looks first in the class a same-sized release files to.
pub struct ExactFit;

impl IndexCalculation for ExactFit {
    proof fn law_classes(n: int, i: int) {
    }

    open spec fn spec_min(i: int) -> int {
        i + 1
    }

    open spec fn spec_max(i: int) -> int {
        i + 2
    }

    open spec fn spec_alloc_index(n: int) -> int {
        n - 1
    }

    open spec fn spec_free_index(n: int) -> int {
        n - 1
    }

    proof fn law_alloc_index_ge_free_index(x: int) {
    }

    fn alloc_index(n: usize) -> (r: usize) {
        n - 1
    }

    fn free_index(n: usize) -> (r: usize) {
        n - 1
    }

    fn min(index: usize) -> (r: usize) {
        index + 1
    }

    fn max(index: usize) -> (r: usize) {
        index + 2
    }
}

/// One size class: a stack of free runs whose lengths lie in `[min, max)`.
pub struct SizeClass {
    pub min: usize,
    pub max: usize,
    pub list: Vec<FreeListNode>,
}

impl SizeClass {
    /// Every node filed under the class lies within its bounds.
    pub open spec fn wf(&self) -> bool {
        &&& self.min >= 1
        &&& forall|k: int|
            0 <= k < self.list@.len() ==> self.min <= (#[trigger] self.list@[k]).len
                < self.max
    }

    /// A fresh, empty class with the given bounds.
    pub fn new(min: usize, max: usize) -> (r: SizeClass)
        requires
            min >= 1,
        ensures
            r.wf(),
            r.min == min,
            r.max == max,
            r.list@.len() == 0,
    {
        SizeClass { min, max, list: Vec::new() }
    }

    /// Is the class out of runs?
    pub fn is_empty(&self) -> (r: bool)
        ensures
            r == (self.list@.len() == 0),
    {
        self.list.len() == 0
    }

    /// Pop a run when every run of this class can serve `wsize` granules.
    /// The returned run may be larger than requested, and it is returned
    /// with its recorded length rather than clipped to the class minimum:
    /// the caller records the actual size, so no tail of the run is lost.
    pub fn allocate_at_least(&mut self, walign: usize, wsize: usize) -> (r: Option<FreeListNode>)
        requires
            old(self).wf(),
            wsize >= 1,
        ensures
            final(self).wf(),
            final(self).min == old(self).min,
            final(self).max == old(self).max,
            r is None ==> final(self).list@ == old(self).list@ && (wsize > old(self).min || old(
                self,
            ).list@.len() == 0),
            r matches Some(node) ==> {
                &&& wsize <= node.len
                &&& old(self).list@.len() > 0
                &&& node == old(self).list@.last()
                &&& final(self).list@ == old(self).list@.drop_last()
            },
    {
        if wsize <= self.min {
            let popped = self.list.pop();
            popped
        } else {
            None
        }
    }

    /// File a freed run under this class; a run outside the class bounds is
    /// handed back to the caller untouched.
    pub fn try_release(&mut self, node: FreeListNode) -> (r: Option<FreeListNode>)
        requires
            old(self).wf(),
        ensures
            final(self).wf(),
            final(self).min == old(self).min,
            final(self).max == old(self).max,
            old(self).min <= node.len < old(self).max ==> {
                &&& r is None
                &&& final(self).list@ == old(self).list@.push(node)
            },
            !(old(self).min <= node.len < old(self).max) ==> {
                &&& r == Some(node)
                &&& final(self).list@ == old(self).list@
            },
    {
        if self.min <= node.len && node.len < self.max {
            self.list.push(node);
            None
        } else {
            Some(node)
        }
    }
}

/// Where the first-fit search would stop: the least index of a run of at
/// least `wsize` granules, if any.
pub open spec fn spec_find_fit(runs: Seq<FreeListNode>, wsize: int) -> Option<int>
    decreases runs.len(),
{
    if runs.len() == 0 {
        None
    } else if runs[0].len >= wsize {
        Some(0)
    } else {
        match spec_find_fit(runs.drop_first(), wsize) {
            None => None,
            Some(i) => Some(i + 1),
        }
    }
}

/// What `spec_find_fit` names: the first run large enough, every earlier
/// run too small, and `None` exactly when no run fits.
pub proof fn lemma_find_fit(runs: Seq<FreeListNode>, wsize: int)
    ensures
        match spec_find_fit(runs, wsize) {
            None => forall|k: int| 0 <= k < runs.len() ==> (#[trigger] runs[k]).len < wsize,
            Some(i) => {
                &&& 0 <= i < runs.len()
                &&& runs[i].len >= wsize
                &&& forall|k: int| 0 <= k < i ==> (#[trigger] runs[k]).len < wsize
            },
        },
    decreases runs.len(),
{
    if runs.len() > 0 && runs[0].len < wsize {
        lemma_find_fit(runs.drop_first(), wsize);
        assert forall|k: int| 1 <= k < runs.len() implies runs.drop_first()[k - 1] == runs[k] by {}
    }
}

/// First-fit free list: one list of variable-sized runs, walked front to
/// back; `min` is the smallest run the list will keep as a node.
pub struct FirstFit {
    pub min: usize,
    pub list: Vec<FreeListNode>,
}

impl FirstFit {
    /// Every kept run has at least `min >= 1` granules and ends within the
    /// address space.
    pub open spec fn wf(&self) -> bool {
        &&& self.min >= 1
        &&& forall|k: int| 0 <= k < self.list@.len() ==> (#[trigger] self.list@[k]).len >= self.min
        &&& forall|k: int|
            0 <= k < self.list@.len() ==> (#[trigger] self.list@[k]).start + self.list@[k].len
                <= usize::MAX
    }

    /// Create a new first-fit free list.
    pub fn new(min: usize) -> (r: FirstFit)
        requires
            min >= 1,
        ensures
            r.wf(),
            r.min == min,
            r.list@.len() == 0,
    {
        FirstFit { min, list: Vec::new() }
    }

    /// Walk the list for the first run of at least `wsize` granules. When
    /// the remainder after carving `wsize` off the front can stand as a node
    /// of its own, the run is split in place; otherwise the whole run is
    /// removed and returned, and may be larger than requested.
    pub fn allocate_at_least(&mut self, walign: usize, wsize: usize) -> (r: Option<FreeListNode>)
        requires
            old(self).wf(),
            wsize >= 1,
        ensures
            final(self).wf(),
            final(self).min == old(self).min,
            match r {
                None => {
                    &&& final(self).list@ == old(self).list@
                    &&& spec_find_fit(old(self).list@, wsize as int) is None
                },
                Some(node) => {
                    &&& node.len >= wsize
                    &&& spec_find_fit(old(self).list@, wsize as int) matches Some(i) && {
                        let hit = old(self).list@[i];
                        if hit.len - wsize >= old(self).min {
                            &&& node == FreeListNode { start: hit.start, len: wsize }
                            &&& final(self).list@ == old(self).list@.update(
                                i,
                                FreeListNode {
                                    start: (hit.start + wsize) as usize,
                                    len: (hit.len - wsize) as usize,
                                },
                            )
                            &&& hit.start + wsize <= usize::MAX
                        } else {
                            &&& node == hit
                            &&& final(self).list@ == old(self).list@.remove(i)
                        }
                    }
                },
            },
    {
        let ghost runs = self.list@;
        let mut j: usize = 0;
        while j < self.list.len()
            invariant
                self.wf(),
                self.list@ == runs,
                runs == old(self).list@,
                self.min == old(self).min,
                wsize >= 1,
                0 <= j <= runs.len(),
                forall|k: int| 0 <= k < j ==> (#[trigger] runs[k]).len < wsize,
            decreases runs.len() - j,
        {
            let node = self.list[j];
            if node.len >= wsize {
                proof {
                    lemma_find_fit_prefix(runs, wsize as int, j as int);
                }
                if node.len - wsize >= self.min {
                    let rest = FreeListNode { start: node.start + wsize, len: node.len - wsize };
                    self.list.set(j, rest);
                    return Some(FreeListNode { start: node.start, len: wsize });
                } else {
                    self.list.remove(j);
                    return Some(node);
                }
            }
            j += 1;
        }
        proof {
            lemma_find_fit(runs, wsize as int);
            match spec_find_fit(runs, wsize as int) {
                Some(i) => {
                    assert(runs[i].len < wsize);
                },
                None => {},
            }
        }
        None
    }

    /// Keep a freed run as a node when it is large enough; hand it back to
    /// the caller when it is too small to stand as a node.
    pub fn try_release(&mut self, node: FreeListNode) -> (r: Option<FreeListNode>)
        requires
            old(self).wf(),
            node.start + node.len <= usize::MAX,
        ensures
            final(self).wf(),
            final(self).min == old(self).min,
            node.len >= old(self).min ==> {
                &&& r is None
                &&& final(self).list@ == seq![node] + old(self).list@
            },
            node.len < old(self).min ==> {
                &&& r == Some(node)
                &&& final(self).list@ == old(self).list@
            },
    {
        if node.len >= self.min {
            self.list.insert(0, node);
            None
        } else {
            Some(node)
        }
    }
}

/// When every run before `j` is too small and run `j` fits, the first-fit
/// search stops exactly at `j`.
proof fn lemma_find_fit_prefix(runs: Seq<FreeListNode>, wsize: int, j: int)
    requires
        0 <= j < runs.len(),
        runs[j].len >= wsize,
        forall|k: int| 0 <= k < j ==> (#[trigger] runs[k]).len < wsize,
    ensures
        spec_find_fit(runs, wsize) == Some(j),
    decreases j,
{
    if j > 0 {
        lemma_find_fit_prefix(runs.drop_first(), wsize, j - 1);
    }
}

/// A run kept by `try_release` is retrievable: the very next allocation of
/// any size up to the run's length finds a fit (the released run stands at
/// the front of the list).
pub proof fn lemma_release_then_allocate(p: FirstFit, q: FirstFit, node: FreeListNode, s: int)
    requires
        node.len >= p.min,
        q.list@ == seq![node] + p.list@,
        1 <= s <= node.len,
    ensures
        spec_find_fit(q.list@, s) == Some(0int),
{
    assert(q.list@[0] == node);
}

/// The first class at or after `start` that still holds a run, if any.
pub open spec fn spec_first_nonempty(buckets: Seq<SizeClass>, start: int) -> Option<int>
    decreases buckets.len() - start,
{
    if start < 0 || start >= buckets.len() {
        None
    } else if buckets[start].list.len() > 0 {
        Some(start)
    } else {
        spec_first_nonempty(buckets, start + 1)
    }
}

/// What `spec_first_nonempty` names: a nonempty class in range, every class
/// between `start` and it empty, and `None` exactly when every class from
/// `start` on is empty.
pub proof fn lemma_first_nonempty(buckets: Seq<SizeClass>, start: int)
    requires
        start >= 0,
    ensures
        match spec_first_nonempty(buckets, start) {
            None => forall|k: int|
                start <= k < buckets.len() ==> (#[trigger] buckets[k]).list.len() == 0,
            Some(i) => {
                &&& start <= i < buckets.len()
                &&& buckets[i].list.len() > 0
                &&& forall|k: int| start <= k < i ==> (#[trigger] buckets[k]).list.len() == 0
            },
        },
    decreases buckets.len() - start,
{
    if start < buckets.len() && buckets[start].list.len() == 0 {
        lemma_first_nonempty(buckets, start + 1);
    }
}

/// Bucketed free list: an indexed array of size classes, with the classes'
/// bounds given by an index calculation.
pub struct Bucketed<I: IndexCalculation> {
    pub buckets: Vec<SizeClass>,
    pub index_calc: core::marker::PhantomData<I>,
}

impl<I: IndexCalculation> Bucketed<I> {
    /// Every class is well formed and carries the bounds its index names.
    pub open spec fn wf(&self) -> bool {
        forall|i: int|
            0 <= i < self.buckets@.len() ==> {
                &&& (#[trigger] self.buckets@[i]).wf()
                &&& self.buckets@[i].min == I::spec_min(i)
                &&& self.buckets@[i].max == I::spec_max(i)
            }
    }

    /// Create a new bucketed free list with `n` classes.
    pub fn new(n: usize) -> (r: Bucketed<I>)
        requires
            forall|i: int| 0 <= i < n ==> #[trigger] I::spec_min(i) <= usize::MAX,
            forall|i: int| 0 <= i < n ==> #[trigger] I::spec_max(i) <= usize::MAX,
        ensures
            r.wf(),
            r.buckets@.len() == n,
            forall|i: int| 0 <= i < n ==> (#[trigger] r.buckets@[i]).list@.len() == 0,
    {
        let mut buckets: Vec<SizeClass> = Vec::new();
        let mut i: usize = 0;
        while i < n
            invariant
                0 <= i <= n,
                buckets@.len() == i,
                forall|k: int| 0 <= k < n ==> #[trigger] I::spec_min(k) <= usize::MAX,
                forall|k: int| 0 <= k < n ==> #[trigger] I::spec_max(k) <= usize::MAX,
                forall|k: int|
                    0 <= k < i ==> {
                        &&& (#[trigger] buckets@[k]).wf()
                        &&& buckets@[k].min == I::spec_min(k)
                        &&& buckets@[k].max == I::spec_max(k)
                        &&& buckets@[k].list@.len() == 0
                    },
            decreases n - i,
        {
            proof {
                I::law_classes(1, i as int);
            }
            let cls = SizeClass::new(I::min(i), I::max(i));
            buckets.push(cls);
            i += 1;
        }
        Bucketed { buckets, index_calc: core::marker::PhantomData }
    }

    /// Pop a run from the first class that can serve `wsize` granules,
    /// starting at `alloc_index(wsize)` and walking to higher classes. The
    /// returned run may be larger than requested.
    pub fn allocate_at_least(&mut self, walign: usize, wsize: usize) -> (r: Option<FreeListNode>)
        requires
            old(self).wf(),
            wsize >= 1,
        ensures
            final(self).wf(),
            final(self).buckets@.len() == old(self).buckets@.len(),
            match r {
                None => {
                    &&& forall|i: int|
                        0 <= i < old(self).buckets@.len() ==> (#[trigger] final(self).buckets@[i]).list@ == old(self).buckets@[i].list@
                    &&& spec_first_nonempty(
                        old(self).buckets@,
                        I::spec_alloc_index(wsize as int),
                    ) is None
                },
                Some(node) => {
                    &&& node.len >= wsize
                    &&& spec_first_nonempty(old(self).buckets@, I::spec_alloc_index(wsize as int))
                        matches Some(i) && {
                        &&& old(self).buckets@[i].list@.len() > 0
                        &&& node == old(self).buckets@[i].list@.last()
                        &&& final(self).buckets@[i].list@ == old(self).buckets@[i].list@.drop_last()
                        &&& forall|k: int|
                            0 <= k < old(self).buckets@.len() && k != i ==> (#[trigger] final(self).buckets@[k]).list@ == old(self).buckets@[k].list@
                    }
                },
            },
    {
        let ghost old_buckets = self.buckets@;
        let start = I::alloc_index(wsize);
        let ghost start_i = I::spec_alloc_index(wsize as int);
        let mut j: usize = start;
        while j < self.buckets.len()
            invariant
                self.wf(),
                self.buckets@ == old_buckets,
                old_buckets == old(self).buckets@,
                start_i == I::spec_alloc_index(wsize as int),
                wsize >= 1,
                start <= j,
                start == start_i,
                forall|k: int| start_i <= k < j ==> (#[trigger] old_buckets[k]).list.len() == 0,
            decreases self.buckets@.len() - j,
        {
            let nonempty = !self.buckets[j].is_empty();
            if nonempty {
                proof {
                    lemma_first_nonempty_prefix(old_buckets, start_i, j as int);
                    I::law_classes(wsize as int, j as int);
                }
                let bucket = &mut self.buckets[j];
                let node = bucket.allocate_at_least(walign, wsize);
                return node;
            }
            j += 1;
        }
        proof {
            lemma_first_nonempty_all_empty(old_buckets, start_i);
        }
        None
    }

    /// File a freed run under the class `free_index` names; a run with no
    /// class is handed back to the caller untouched.
    pub fn try_release(&mut self, node: FreeListNode) -> (r: Option<FreeListNode>)
        requires
            old(self).wf(),
            node.len >= 1,
        ensures
            final(self).wf(),
            final(self).buckets@.len() == old(self).buckets@.len(),
            ({
                let k = I::spec_free_index(node.len as int);
                if 0 <= k < old(self).buckets@.len() {
                    &&& r is None
                    &&& final(self).buckets@[k].list@ == old(self).buckets@[k].list@.push(node)
                    &&& forall|i: int|
                        0 <= i < old(self).buckets@.len() && i != k ==> (#[trigger] final(self).buckets@[i]).list@ == old(self).buckets@[i].list@
                } else {
                    &&& r == Some(node)
                    &&& forall|i: int|
                        0 <= i < old(self).buckets@.len() ==> (#[trigger] final(self).buckets@[i]).list@ == old(self).buckets@[i].list@
                }
            }),
    {
        let k = I::free_index(node.len());
        proof {
            I::law_alloc_index_ge_free_index(node.len as int);
        }
        if k < self.buckets.len() {
            let bucket = &mut self.buckets[k];
            bucket.try_release(node)
        } else {
            Some(node)
        }
    }
}

/// When every class from `start` up to `j` is empty and class `j` is not,
/// the walk stops exactly at `j`.
proof fn lemma_first_nonempty_prefix(buckets: Seq<SizeClass>, start: int, j: int)
    requires
        0 <= start <= j < buckets.len(),
        buckets[j].list.len() > 0,
        forall|k: int| start <= k < j ==> (#[trigger] buckets[k]).list.len() == 0,
    ensures
        spec_first_nonempty(buckets, start) == Some(j),
    decreases j - start,
{
    if start < j {
        lemma_first_nonempty_prefix(buckets, start + 1, j);
    }
}

/// When every class from `start` on is empty, the walk finds nothing.
proof fn lemma_first_nonempty_all_empty(buckets: Seq<SizeClass>, start: int)
    requires
        start >= 0,
        forall|k: int| start <= k < buckets.len() ==> (#[trigger] buckets[k]).list.len() == 0,
    ensures
        spec_first_nonempty(buckets, start) is None,
    decreases buckets.len() - start,
{
    if start < buckets.len() {
        lemma_first_nonempty_all_empty(buckets, start + 1);
    }
}

/// A run filed by the bucketed `try_release` is retrievable by an
/// allocation of the same size: the class it was filed under lies at or
/// above the class where the allocation starts looking, so the walk finds a
/// nonempty class.
pub proof fn lemma_bucketed_release_then_allocate<I: IndexCalculation>(
    p: Seq<SizeClass>,
    q: Seq<SizeClass>,
    node: FreeListNode,
    s: int,
)
    requires
        1 <= s <= node.len,
        0 <= I::spec_free_index(node.len as int) < p.len(),
        0 <= I::spec_alloc_index(s) <= I::spec_free_index(node.len as int),
        q.len() == p.len(),
        q[I::spec_free_index(node.len as int)].list@ == p[I::spec_free_index(
            node.len as int,
        )].list@.push(node),
    ensures
        spec_first_nonempty(q, I::spec_alloc_index(s)) is Some,
{
    let k = I::spec_free_index(node.len as int);
    let start = I::spec_alloc_index(s);
    lemma_first_nonempty(q, start);
    if spec_first_nonempty(q, start) is None {
        assert(q[k].list.len() == 0);
        assert(q[k].list@.len() > 0);
    }
}

} // verus!

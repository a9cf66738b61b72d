//! The type registry and the interpreter facade.
//!
//! The facade owns the generation and the registry of built-in type
//! objects. Construction bootstraps the `Type` object, whose own type field
//! is a self-reference installed before any tracing can occur, then the
//! other built-in shapes. Creation of heap values goes through typed
//! constructors that allocate, write the header and payload, and keep the
//! heap well formed; the retry constructors wrap one allocation in the
//! collection-and-retry protocol.

use vstd::prelude::*;

use crate::heap::{spec_root_addrs, Generation};
use crate::value::{spec_is_pointer, spec_ptr_addr, ValueRef, INT_END};

verus! {

/// Granules in a plain object header: link and type words.
pub const HEAP_VALUE_GSIZE: usize = 2;

/// Granules in a `Type` object: header, granule size, reference prefix
/// length.
pub const TYPE_GSIZE: usize = 4;

/// Granules in a `Const` object: header and one value word.
pub const CONST_GSIZE: usize = 3;

/// Granules in a `Closure` object: header and the code-object index.
pub const CLOSURE_GSIZE: usize = 3;

/// The runtime errors the core can surface.
#[derive(Clone, Copy, PartialEq, Eq, Structural, Debug)]
pub enum RuntimeError {
    OutOfMemory,
    BoundsError,
    TypeError,
}

/// The tags of the built-in types.
#[derive(Clone, Copy, PartialEq, Eq, Structural, Debug)]
pub enum TypeIndex {
    Type,
    Const,
    Closure,
}

/// The registry slot a tag names.
pub open spec fn spec_tag_index(t: TypeIndex) -> int {
    match t {
        TypeIndex::Type => 0,
        TypeIndex::Const => 1,
        TypeIndex::Closure => 2,
    }
}

/// How many built-in tags there are.
pub const TYPE_INDEX_COUNT: usize = 3;

fn tag_index(t: TypeIndex) -> (r: usize)
    ensures
        r == spec_tag_index(t),
        r < 3,
{
    match t {
        TypeIndex::Type => 0,
        TypeIndex::Const => 1,
        TypeIndex::Closure => 2,
    }
}

/// An ordered table from built-in type tag to the type object installed
/// for it; the null reference marks an empty slot.
pub struct TypeRegistry {
    pub entries: Vec<ValueRef>,
}

impl TypeRegistry {
    /// The registered type object for `t`.
    pub open spec fn spec_get(&self, t: TypeIndex) -> ValueRef {
        self.entries@[spec_tag_index(t)]
    }

    /// An empty registry.
    pub fn new() -> (r: TypeRegistry)
        ensures
            r.entries@.len() == 3,
            forall|t: TypeIndex| (#[trigger] r.spec_get(t)).word == 0,
    {
        let mut entries: Vec<ValueRef> = Vec::new();
        entries.push(ValueRef::null());
        entries.push(ValueRef::null());
        entries.push(ValueRef::null());
        TypeRegistry { entries }
    }

    /// Install the type object for `t`.
    pub fn insert(&mut self, t: TypeIndex, v: ValueRef)
        requires
            old(self).entries@.len() == 3,
        ensures
            final(self).entries@.len() == 3,
            final(self).spec_get(t) == v,
            forall|u: TypeIndex|
                u != t ==> #[trigger] final(self).spec_get(u) == old(self).spec_get(u),
            final(self).entries@ == old(self).entries@.update(spec_tag_index(t), v),
    {
        let i = tag_index(t);
        let slot = &mut self.entries[i];
        *slot = v;
        proof {
            assert forall|u: TypeIndex| u != t implies #[trigger] self.spec_get(u) == old(self).spec_get(u) by {
                assert(spec_tag_index(u) != spec_tag_index(t));
            }
        }
    }

    /// Look up the type object for `t`.
    pub fn get(&self, t: TypeIndex) -> (r: ValueRef)
        requires
            self.entries@.len() == 3,
        ensures
            r == self.spec_get(t),
    {
        let i = tag_index(t);
        self.entries[i]
    }

    /// The tag whose registered type object is `v`, if any.
    pub fn index_of(&self, v: ValueRef) -> (r: Option<TypeIndex>)
        requires
            self.entries@.len() == 3,
        ensures
            r == Some(TypeIndex::Type) ==> self.spec_get(TypeIndex::Type) == v,
            r == Some(TypeIndex::Const) ==> self.spec_get(TypeIndex::Const) == v,
            r == Some(TypeIndex::Closure) ==> self.spec_get(TypeIndex::Closure) == v,
            r is None ==> forall|t: TypeIndex| (#[trigger] self.spec_get(t)) != v,
    {
        if self.get(TypeIndex::Type) == v {
            Some(TypeIndex::Type)
        } else if self.get(TypeIndex::Const) == v {
            Some(TypeIndex::Const)
        } else if self.get(TypeIndex::Closure) == v {
            Some(TypeIndex::Closure)
        } else {
            proof {
                assert forall|t: TypeIndex| (#[trigger] self.spec_get(t)) != v by {
                    assert(spec_tag_index(t) == 0 || spec_tag_index(t) == 1 || spec_tag_index(t)
                        == 2);
                }
            }
            None
        }
    }
}

/// What a tagged word denotes, classified through the registry.
pub enum ValueView {
    Int(i64),
    Char(char),
    Bool(bool),
    Null,
    Type(usize),
    Const(usize),
    Closure(usize),
    Opaque(usize),
}

/// The interpreter facade: the generation and the registry.
pub struct Interpreter {
    pub gen: Generation,
    pub types: TypeRegistry,
}

impl Interpreter {
    /// The address of the type object registered for `t`.
    pub open spec fn type_addr(&self, t: TypeIndex) -> int {
        spec_ptr_addr(self.types.spec_get(t).word)
    }

    /// The facade invariant: the heap is well formed, each registry slot
    /// holds a live, well-formed type object describing its instances, and
    /// every granule address fits a pointer word.
    pub open spec fn inv(&self) -> bool {
        &&& self.gen.inv()
        &&& self.gen.wf_heap()
        &&& self.gen.mem@.len() <= u64::MAX as int / 4
        &&& self.types.entries@.len() == 3
        &&& forall|t: TypeIndex|
            {
                &&& spec_is_pointer((#[trigger] self.types.spec_get(t)).word)
                &&& self.gen.is_obj(self.type_addr(t))
                &&& self.gen.len_of(self.type_addr(t)) == 4
                &&& self.gen.mem@[self.type_addr(t) + 1] == self.types.spec_get(
                    TypeIndex::Type,
                ).word
            }
        &&& self.gen.mem@[self.type_addr(TypeIndex::Type) + 2] == 4
        &&& self.gen.mem@[self.type_addr(TypeIndex::Type) + 3] == 0
        &&& self.gen.mem@[self.type_addr(TypeIndex::Const) + 2] == 3
        &&& self.gen.mem@[self.type_addr(TypeIndex::Const) + 3] == 1
        &&& self.gen.mem@[self.type_addr(TypeIndex::Closure) + 2] == 3
        &&& self.gen.mem@[self.type_addr(TypeIndex::Closure) + 3] == 0
    }

    /// The value at `a` is a live closure object carrying a code-object
    /// index below `ncobs`.
    pub open spec fn is_closure_obj(&self, a: int, ncobs: int) -> bool {
        &&& self.gen.is_obj(a)
        &&& self.gen.len_of(a) == 3
        &&& self.gen.mem@[a + 1] == self.types.spec_get(TypeIndex::Closure).word
        &&& self.gen.mem@[a + 2] % 4 == 1
        &&& 0 <= crate::value::spec_int_value(self.gen.mem@[a + 2] as u64) < ncobs
    }

    /// Allocate and initialize one object of tag `t`: the link word is a
    /// self-reference, the type word names the registered type object, and
    /// the payload is `p0` (and `p1` for a four-granule object). `None`
    /// only when the generation cannot serve the allocation, with nothing
    /// changed.
    #[verifier::rlimit(100)]
    #[verifier::spinoff_prover]
    fn create_obj(&mut self, t: TypeIndex, gsize: usize, p0: u64, p1: u64) -> (r: Option<usize>)
        requires
            old(self).inv(),
            gsize == (if t == TypeIndex::Type {
                4int
            } else {
                3int
            }),
            t == TypeIndex::Const && spec_is_pointer(p0) ==> old(self).gen.is_obj(
                spec_ptr_addr(p0),
            ),
        ensures
            final(self).types == old(self).types,
            final(self).gen.mem@.len() == old(self).gen.mem@.len(),
            match r {
                None => {
                    &&& final(self).inv()
                    &&& final(self).gen.mem@ == old(self).gen.mem@
                    &&& final(self).gen.objects@ == old(self).gen.objects@
                    &&& final(self).gen.bump == old(self).gen.bump
                    &&& final(self).gen.free.list@ == old(self).gen.free.list@
                    &&& crate::freelist::spec_find_fit(
                        old(self).gen.free.list@,
                        gsize as int,
                    ) is None
                    &&& old(self).gen.bump + gsize > old(self).gen.mem@.len()
                },
                Some(a) => {
                    &&& final(self).inv()
                    &&& final(self).gen.objects@ == old(self).gen.objects@.push(
                        crate::heap::ObjRec { addr: a, len: gsize },
                    )
                    &&& 1 <= a && a + gsize <= final(self).gen.bump
                    &&& final(self).gen.is_obj(a as int)
                    &&& final(self).gen.len_of(a as int) == gsize
                    &&& final(self).gen.mem@[a as int] == a as int * 4
                    &&& final(self).gen.mem@[a + 1] == old(self).types.spec_get(t).word
                    &&& final(self).gen.mem@[a + 2] == p0
                    &&& gsize == 4 ==> final(self).gen.mem@[a + 3] == p1
                    &&& forall|i: int|
                        0 <= i < old(self).gen.objects@.len() ==> final(self).gen.objects@[i]
                            == (#[trigger] old(self).gen.objects@[i])
                    &&& forall|i: int, k: int|
                        0 <= i < old(self).gen.objects@.len() && 0 <= k < old(self).gen.objects@[i].len ==> final(self).gen.mem@[#[trigger] (
                        old(self).gen.objects@[i].addr + k)] == old(self).gen.mem@[old(self).gen.objects@[i].addr + k]
                    &&& forall|x: int|
                        old(self).gen.is_obj(x) ==> final(self).gen.is_obj(x) && final(self).gen.len_of(x) == old(self).gen.len_of(x)
                },
            },
    {
        let ghost g = *self;
        let got = self.gen.allocate(1, gsize);
        match got {
            None => None,
            Some(a) => {
                self.init_obj(Ghost(g), t, gsize, a, p0, p1);
                Some(a)
            },
        }
    }

    /// Write the header and payload of a freshly allocated slot: the state
    /// before the allocation is `g`, the slot starts at `a`.
    #[verifier::rlimit(100)]
    #[verifier::spinoff_prover]
    fn init_obj(
        &mut self,
        Ghost(g): Ghost<Interpreter>,
        t: TypeIndex,
        gsize: usize,
        a: usize,
        p0: u64,
        p1: u64,
    )
        requires
            g.inv(),
            gsize == (if t == TypeIndex::Type {
                4int
            } else {
                3int
            }),
            t == TypeIndex::Const && spec_is_pointer(p0) ==> g.gen.is_obj(spec_ptr_addr(p0)),
            old(self).types == g.types,
            old(self).gen.inv(),
            old(self).gen.mem@ == g.gen.mem@,
            old(self).gen.objects@ == g.gen.objects@.push(
                crate::heap::ObjRec { addr: a, len: gsize },
            ),
            1 <= a,
            a + gsize <= old(self).gen.bump,
            old(self).gen.bump >= g.gen.bump,
            forall|i: int|
                0 <= i < g.gen.objects@.len() ==> crate::heap::runs_disjoint(
                    a as int,
                    gsize as int,
                    (#[trigger] g.gen.objects@[i]).addr as int,
                    g.gen.objects@[i].len as int,
                ),
        ensures
            final(self).types == g.types,
            final(self).gen.mem@.len() == g.gen.mem@.len(),
            final(self).gen.bump == old(self).gen.bump,
            final(self).inv(),
            final(self).gen.objects@ == g.gen.objects@.push(
                crate::heap::ObjRec { addr: a, len: gsize },
            ),
            final(self).gen.is_obj(a as int),
            final(self).gen.len_of(a as int) == gsize,
            final(self).gen.mem@[a as int] == a as int * 4,
            final(self).gen.mem@[a + 1] == g.types.spec_get(t).word,
            final(self).gen.mem@[a + 2] == p0,
            gsize == 4 ==> final(self).gen.mem@[a + 3] == p1,
            forall|i: int, k: int|
                0 <= i < g.gen.objects@.len() && 0 <= k < g.gen.objects@[i].len ==> final(self).gen.mem@[#[trigger] (g.gen.objects@[i].addr + k)] == g.gen.mem@[g.gen.objects@[i].addr
                    + k],
            forall|x: int|
                g.gen.is_obj(x) ==> final(self).gen.is_obj(x) && final(self).gen.len_of(x)
                    == g.gen.len_of(x),
    {
        proof {
            assert(a + gsize <= self.gen.bump <= self.gen.mem@.len());
            assert(a <= u64::MAX as int / 4);
        }
        let self_ref = ValueRef::from_addr(a as u64);
        let tv = self.types.get(t);
        self.gen.store(a, self_ref.word);
        self.gen.store(a + 1, tv.word);
        self.gen.store(a + 2, p0);
        if gsize == 4 {
            self.gen.store(a + 3, p1);
        }
        proof {
            assert forall|z: int|
                0 <= z < g.gen.mem@.len() && !(a <= z < a + gsize) implies self.gen.mem@[z]
                    == g.gen.mem@[z] by {}
            lemma_create_finish(g, *self, t, gsize as int, a as int, p0, p1);
        }
    }
}

impl Interpreter {
    /// Construct the heap and bootstrap the built-in types. The `Type`
    /// object is created first and its type field set to itself before any
    /// other object exists; the `Const` and `Closure` shapes follow.
    #[verifier::rlimit(100)]
    pub fn new(max_heap: usize) -> (r: Interpreter)
        requires
            max_heap >= 104,
            max_heap / 8 <= u64::MAX as int / 4,
        ensures
            r.inv(),
            r.gen.mem@.len() == max_heap as int / 8,
            r.gen.objects@.len() == 3,
    {
        let limit = max_heap / 8;
        proof {
            assert(limit >= 13) by (nonlinear_arith)
                requires
                    limit == max_heap as int / 8,
                    max_heap >= 104,
            ;
        }
        let mut gen = Generation::new(limit);
        let a1 = match gen.allocate(1, 4) {
            Some(a) => a,
            None => {
                proof {
                    assert(false);
                }
                0
            },
        };
        let a2 = match gen.allocate(1, 4) {
            Some(a) => a,
            None => {
                proof {
                    assert(false);
                }
                0
            },
        };
        let a3 = match gen.allocate(1, 4) {
            Some(a) => a,
            None => {
                proof {
                    assert(false);
                }
                0
            },
        };
        let t1 = ValueRef::from_addr(a1 as u64);
        let t2 = ValueRef::from_addr(a2 as u64);
        let t3 = ValueRef::from_addr(a3 as u64);
        // The Type object: its own type is itself; instances are 4
        // granules with no traced payload words. Then the Const shape
        // (3 granules, one traced value word) and the Closure shape
        // (3 granules, the code-object index untraced).
        init_type_obj(&mut gen, a1, t1.word, t1.word, 4, 0);
        init_type_obj(&mut gen, a2, t2.word, t1.word, 3, 1);
        init_type_obj(&mut gen, a3, t3.word, t1.word, 3, 0);
        proof {
            assert(gen.objects@.len() == 3);
            assert(gen.objects@[0] == (crate::heap::ObjRec { addr: a1, len: 4 }));
            assert(gen.objects@[1] == (crate::heap::ObjRec { addr: a2, len: 4 }));
            assert(gen.objects@[2] == (crate::heap::ObjRec { addr: a3, len: 4 }));
            assert(crate::heap::runs_disjoint(
                gen.objects@[0].addr as int,
                gen.objects@[0].len as int,
                gen.objects@[1].addr as int,
                gen.objects@[1].len as int,
            ));
            assert(crate::heap::runs_disjoint(
                gen.objects@[0].addr as int,
                gen.objects@[0].len as int,
                gen.objects@[2].addr as int,
                gen.objects@[2].len as int,
            ));
            assert(crate::heap::runs_disjoint(
                gen.objects@[1].addr as int,
                gen.objects@[1].len as int,
                gen.objects@[2].addr as int,
                gen.objects@[2].len as int,
            ));
            assert(gen.mem@[a1 as int + 1] == t1.word);
            assert(gen.mem@[a1 as int + 2] == 4);
            assert(gen.mem@[a1 as int + 3] == 0);
            assert(gen.mem@[a2 as int + 1] == t1.word);
            assert(gen.mem@[a2 as int + 2] == 3);
            assert(gen.mem@[a2 as int + 3] == 1);
            assert(gen.mem@[a3 as int + 1] == t1.word);
            assert(gen.mem@[a3 as int + 2] == 3);
            assert(gen.mem@[a3 as int + 3] == 0);
        }
        let mut types = TypeRegistry::new();
        types.insert(TypeIndex::Type, t1);
        types.insert(TypeIndex::Const, t2);
        types.insert(TypeIndex::Closure, t3);
        let r = Interpreter { gen, types };
        proof {
            lemma_bootstrap(r, a1 as int, a2 as int, a3 as int, t1, t2, t3);
        }
        r
    }

    /// Create a `Type` object describing instances of `size` bytes with
    /// `ref_len` leading reference words; `None` when the heap is full.
    pub fn create_type(&mut self, size: usize, ref_len: usize) -> (r: Option<ValueRef>)
        requires
            old(self).inv(),
            size <= usize::MAX - 7,
        ensures
            final(self).inv(),
            final(self).types == old(self).types,
            match r {
                None => {
                    &&& final(self).gen.objects@ == old(self).gen.objects@
                    &&& final(self).gen.mem@ == old(self).gen.mem@
                    &&& final(self).gen.bump == old(self).gen.bump
                    &&& final(self).gen.free.list@ == old(self).gen.free.list@
                    &&& crate::freelist::spec_find_fit(old(self).gen.free.list@, 4) is None
                    &&& old(self).gen.bump + 4 > old(self).gen.mem@.len()
                },
                Some(v) => {
                    &&& spec_is_pointer(v.word)
                    &&& final(self).gen.is_obj(spec_ptr_addr(v.word))
                    &&& final(self).gen.len_of(spec_ptr_addr(v.word)) == 4
                    &&& final(self).gen.mem@[spec_ptr_addr(v.word)] == v.word
                    &&& final(self).gen.mem@[spec_ptr_addr(v.word) + 2] == (size as int + 7) / 8
                    &&& final(self).gen.mem@[spec_ptr_addr(v.word) + 3] == ref_len
                    &&& final(self).gen.mem@[spec_ptr_addr(v.word) + 1] == old(self).types.spec_get(TypeIndex::Type).word
                },
            },
    {
        let gsize = crate::layout::gsize_of_bytes(size);
        let got = self.create_obj(TypeIndex::Type, 4, gsize as u64, ref_len as u64);
        match got {
            Some(a) => Some(ValueRef::from_addr(a as u64)),
            None => None,
        }
    }

    /// Create a `Const` object holding `value`, which must be an immediate
    /// or a live reference; `None` when the heap is full.
    pub fn create_const(&mut self, value: ValueRef) -> (r: Option<ValueRef>)
        requires
            old(self).inv(),
            spec_is_pointer(value.word) ==> old(self).gen.is_obj(spec_ptr_addr(value.word)),
        ensures
            final(self).inv(),
            final(self).types == old(self).types,
            match r {
                None => {
                    &&& final(self).gen.objects@ == old(self).gen.objects@
                    &&& final(self).gen.mem@ == old(self).gen.mem@
                    &&& final(self).gen.bump == old(self).gen.bump
                    &&& final(self).gen.free.list@ == old(self).gen.free.list@
                    &&& crate::freelist::spec_find_fit(old(self).gen.free.list@, 3) is None
                    &&& old(self).gen.bump + 3 > old(self).gen.mem@.len()
                },
                Some(v) => {
                    &&& spec_is_pointer(v.word)
                    &&& final(self).gen.is_obj(spec_ptr_addr(v.word))
                    &&& final(self).gen.len_of(spec_ptr_addr(v.word)) == 3
                    &&& final(self).gen.mem@[spec_ptr_addr(v.word)] == v.word
                    &&& final(self).gen.mem@[spec_ptr_addr(v.word) + 2] == value.word
                    &&& final(self).gen.mem@[spec_ptr_addr(v.word) + 1] == old(self).types.spec_get(TypeIndex::Const).word
                    &&& forall|x: int|
                        old(self).gen.is_obj(x) ==> final(self).gen.is_obj(x) && final(self).gen.len_of(x) == old(self).gen.len_of(x)
                },
            },
    {
        let got = self.create_obj(TypeIndex::Const, 3, value.word, 0);
        match got {
            Some(a) => Some(ValueRef::from_addr(a as u64)),
            None => None,
        }
    }

    /// Create a `Closure` object pairing the code object `cob_id` names
    /// with the heap; `None` when the heap is full.
    #[verifier::rlimit(100)]
    #[verifier::spinoff_prover]
    pub fn create_closure(&mut self, cob_id: usize) -> (r: Option<ValueRef>)
        requires
            old(self).inv(),
            cob_id < INT_END as int,
        ensures
            final(self).inv(),
            final(self).types == old(self).types,
            final(self).gen.mem@.len() == old(self).gen.mem@.len(),
            match r {
                None => {
                    &&& final(self).gen.objects@ == old(self).gen.objects@
                    &&& final(self).gen.mem@ == old(self).gen.mem@
                    &&& final(self).gen.bump == old(self).gen.bump
                    &&& final(self).gen.free.list@ == old(self).gen.free.list@
                    &&& crate::freelist::spec_find_fit(old(self).gen.free.list@, 3) is None
                    &&& old(self).gen.bump + 3 > old(self).gen.mem@.len()
                },
                Some(v) => {
                    &&& spec_is_pointer(v.word)
                    &&& final(self).gen.is_obj(spec_ptr_addr(v.word))
                    &&& final(self).gen.len_of(spec_ptr_addr(v.word)) == 3
                    &&& final(self).gen.mem@[spec_ptr_addr(v.word)] == v.word
                    &&& final(self).gen.mem@[spec_ptr_addr(v.word) + 2] == crate::value::spec_int_word(
                        cob_id as int,
                    )
                    &&& final(self).gen.mem@[spec_ptr_addr(v.word) + 1] == old(self).types.spec_get(TypeIndex::Closure).word
                    &&& forall|i: int, k: int|
                        0 <= i < old(self).gen.objects@.len() && 0 <= k < old(self).gen.objects@[i].len ==> final(self).gen.mem@[#[trigger] (
                        old(self).gen.objects@[i].addr + k)] == old(self).gen.mem@[old(self).gen.objects@[i].addr + k]
                    &&& forall|x: int|
                        old(self).gen.is_obj(x) ==> final(self).gen.is_obj(x) && final(self).gen.len_of(x) == old(self).gen.len_of(x)
                },
            },
    {
        let w = ValueRef::from_int(cob_id as i64);
        let got = self.create_obj(TypeIndex::Closure, 3, w.word, 0);
        match got {
            Some(a) => Some(ValueRef::from_addr(a as u64)),
            None => None,
        }
    }
}

/// Initializing a freshly allocated object leaves every older object's
/// words and liveness intact, keeps the registry facts, and yields a heap
/// well formed for tracing again.
impl Interpreter {
    /// Collect garbage: the caller's roots and the registry's type objects
    /// together form the root set handed to the collector. Whatever is
    /// reachable from them survives with its memory intact; the caller's
    /// roots are left untouched.
    #[verifier::rlimit(100)]
    #[verifier::spinoff_prover]
    pub fn collect(&mut self, roots: &mut Vec<ValueRef>)
        requires
            old(self).inv(),
            forall|i: int|
                0 <= i < old(roots)@.len() && spec_is_pointer((#[trigger] old(roots)@[i]).word)
                    ==> old(self).gen.is_obj(spec_ptr_addr(old(roots)@[i].word)),
        ensures
            final(self).inv(),
            final(roots)@ == old(roots)@,
            final(self).types == old(self).types,
            final(self).gen.mem@ == old(self).gen.mem@,
            final(self).gen.bump == old(self).gen.bump,
            forall|a: int|
                final(self).gen.is_obj(a) <==> old(self).gen.reached(
                    spec_root_addrs(old(roots)@ + old(self).types.entries@),
                    a,
                ) && old(self).gen.is_obj(a),
            forall|a: int|
                old(self).gen.reached(
                    spec_root_addrs(old(roots)@ + old(self).types.entries@),
                    a,
                ) && old(self).gen.is_obj(a) ==> final(self).gen.len_of(a) == old(self).gen.len_of(
                    a,
                ),
            forall|i: int|
                0 <= i < old(self).gen.objects@.len() && !old(self).gen.reached(
                    spec_root_addrs(old(roots)@ + old(self).types.entries@),
                    (#[trigger] old(self).gen.objects@[i]).addr as int,
                ) ==> final(self).gen.free.list@.contains(
                    crate::freelist::FreeListNode {
                        start: old(self).gen.objects@[i].addr,
                        len: old(self).gen.objects@[i].len,
                    },
                ),
    {
        let ghost rset = spec_root_addrs(roots@ + self.types.entries@);
        let mut combined: Vec<ValueRef> = Vec::new();
        let mut i: usize = 0;
        while i < roots.len()
            invariant
                i <= roots@.len(),
                combined@ == roots@.subrange(0, i as int),
            decreases roots@.len() - i,
        {
            combined.push(roots[i]);
            i += 1;
        }
        let mut k: usize = 0;
        while k < 3
            invariant
                self.types.entries@.len() == 3,
                k <= 3,
                combined@ == roots@ + self.types.entries@.subrange(0, k as int),
            decreases 3 - k,
        {
            combined.push(self.types.entries[k]);
            proof {
                assert(combined@ =~= roots@ + self.types.entries@.subrange(0, k as int + 1));
            }
            k += 1;
        }
        proof {
            assert(roots@.subrange(0, roots@.len() as int) =~= roots@);
            assert(self.types.entries@.subrange(0, 3) =~= self.types.entries@);
            assert(combined@ =~= roots@ + self.types.entries@);
            assert forall|j: int|
                0 <= j < combined@.len() && spec_is_pointer(
                    (#[trigger] combined@[j]).word,
                ) implies self.gen.is_obj(spec_ptr_addr(combined@[j].word)) by {
                if j < roots@.len() {
                    assert(combined@[j] == roots@[j]);
                } else {
                    let t = choose|t: TypeIndex| spec_tag_index(t) == j - roots@.len();
                    assert(spec_tag_index(TypeIndex::Type) == 0 && spec_tag_index(TypeIndex::Const)
                        == 1 && spec_tag_index(TypeIndex::Closure) == 2);
                    assert(combined@[j] == self.types.entries@[j - roots@.len()]);
                }
            }
        }
        self.gen.mark_and_sweep(&mut combined);
        proof {
            // The registry's type objects were roots, so they survive with
            // their shapes; the facade invariant carries over.
            assert forall|t: TypeIndex|
                {
                    &&& spec_is_pointer((#[trigger] self.types.spec_get(t)).word)
                    &&& self.gen.is_obj(self.type_addr(t))
                    &&& self.gen.len_of(self.type_addr(t)) == old(self).gen.len_of(
                        self.type_addr(t),
                    )
                } by {
                let j = roots@.len() as int + spec_tag_index(t);
                assert(combined@[j] == self.types.entries@[spec_tag_index(t)]);
                assert(rset.contains(spec_ptr_addr(self.types.spec_get(t).word)));
                old(self).gen.lemma_reached_root(rset, spec_ptr_addr(self.types.spec_get(t).word));
            }
            assert forall|i2: int| 0 <= i2 < self.gen.objects@.len() implies self.gen.wf_obj(
                (#[trigger] self.gen.objects@[i2]).addr as int,
            ) by {}
        }
    }

    /// One allocation under the collection-and-retry protocol: try to
    /// create a `Const`; on failure collect with the caller's roots (and
    /// the value, when it is a reference) and retry exactly once; a second
    /// failure is `OutOfMemory`. Everything reachable from the roots and
    /// the registry survives.
    #[verifier::rlimit(100)]
    #[verifier::spinoff_prover]
    pub fn create_const_retry(&mut self, roots: &mut Vec<ValueRef>, value: ValueRef) -> (r: Result<
        ValueRef,
        RuntimeError,
    >)
        requires
            old(self).inv(),
            forall|i: int|
                0 <= i < old(roots)@.len() && spec_is_pointer((#[trigger] old(roots)@[i]).word)
                    ==> old(self).gen.is_obj(spec_ptr_addr(old(roots)@[i].word)),
            spec_is_pointer(value.word) ==> old(self).gen.reached(
                spec_root_addrs(old(roots)@ + old(self).types.entries@),
                spec_ptr_addr(value.word),
            ) && old(self).gen.is_obj(spec_ptr_addr(value.word)),
        ensures
            final(self).inv(),
            final(roots)@ == old(roots)@,
            match r {
                Ok(v) => {
                    &&& spec_is_pointer(v.word)
                    &&& final(self).gen.is_obj(spec_ptr_addr(v.word))
                    &&& final(self).gen.len_of(spec_ptr_addr(v.word)) == 3
                    &&& final(self).gen.mem@[spec_ptr_addr(v.word)] == v.word
                    &&& final(self).gen.mem@[spec_ptr_addr(v.word) + 2] == value.word
                },
                Err(e) => {
                    &&& e == RuntimeError::OutOfMemory
                    &&& crate::freelist::spec_find_fit(final(self).gen.free.list@, 3) is None
                    &&& final(self).gen.bump + 3 > final(self).gen.mem@.len()
                },
            },
    {
        let first = self.create_const(value);
        match first {
            Some(v) => Ok(v),
            None => {
                let mut all = Vec::new();
                let mut i: usize = 0;
                while i < roots.len()
                    invariant
                        i <= roots@.len(),
                        all@ == roots@.subrange(0, i as int),
                    decreases roots@.len() - i,
                {
                    all.push(roots[i]);
                    i += 1;
                }
                proof {
                    assert(all@ =~= roots@);
                }
                all.push(value);
                proof {
                    assert forall|j: int|
                        0 <= j < all@.len() && spec_is_pointer(
                            (#[trigger] all@[j]).word,
                        ) implies self.gen.is_obj(spec_ptr_addr(all@[j].word)) by {
                        if j < roots@.len() {
                            assert(all@[j] == roots@[j]);
                        } else {
                            assert(all@[j] == value);
                        }
                    }
                }
                self.collect(&mut all);
                proof {
                    let rset0 = spec_root_addrs(old(roots)@ + old(self).types.entries@);
                    let rset1 = spec_root_addrs(all@ + old(self).types.entries@);
                    if spec_is_pointer(value.word) {
                        // The value was threaded through the retry roots,
                        // so it survived the collection.
                        assert(all@[roots@.len() as int] == value);
                        assert((all@ + old(self).types.entries@)[roots@.len() as int] == value);
                        assert(rset1.contains(spec_ptr_addr(value.word)));
                        old(self).gen.lemma_reached_root(rset1, spec_ptr_addr(value.word));
                        assert(self.gen.is_obj(spec_ptr_addr(value.word)));
                    }
                }
                let second = self.create_const(value);
                match second {
                    Some(v) => Ok(v),
                    None => Err(RuntimeError::OutOfMemory),
                }
            },
        }
    }

    /// One `Type` creation under the collection-and-retry protocol:
    /// collect with the caller's roots and retry exactly once; a second
    /// failure is `OutOfMemory`, owed only when even the collected heap
    /// has no room.
    #[verifier::rlimit(100)]
    #[verifier::spinoff_prover]
    pub fn create_type_retry(
        &mut self,
        roots: &mut Vec<ValueRef>,
        size: usize,
        ref_len: usize,
    ) -> (r: Result<ValueRef, RuntimeError>)
        requires
            old(self).inv(),
            size <= usize::MAX - 7,
            forall|i: int|
                0 <= i < old(roots)@.len() && spec_is_pointer((#[trigger] old(roots)@[i]).word)
                    ==> old(self).gen.is_obj(spec_ptr_addr(old(roots)@[i].word)),
        ensures
            final(self).inv(),
            final(roots)@ == old(roots)@,
            match r {
                Ok(v) => {
                    &&& spec_is_pointer(v.word)
                    &&& final(self).gen.is_obj(spec_ptr_addr(v.word))
                    &&& final(self).gen.len_of(spec_ptr_addr(v.word)) == 4
                    &&& final(self).gen.mem@[spec_ptr_addr(v.word) + 2] == (size as int + 7) / 8
                    &&& final(self).gen.mem@[spec_ptr_addr(v.word) + 3] == ref_len
                },
                Err(e) => {
                    &&& e == RuntimeError::OutOfMemory
                    &&& crate::freelist::spec_find_fit(final(self).gen.free.list@, 4) is None
                    &&& final(self).gen.bump + 4 > final(self).gen.mem@.len()
                },
            },
    {
        let first = self.create_type(size, ref_len);
        match first {
            Some(v) => Ok(v),
            None => {
                self.collect(roots);
                let second = self.create_type(size, ref_len);
                match second {
                    Some(v) => Ok(v),
                    None => Err(RuntimeError::OutOfMemory),
                }
            },
        }
    }

    /// One `Closure` creation under the collection-and-retry protocol:
    /// collect with the caller's roots and retry exactly once; a second
    /// failure is `OutOfMemory`, owed only when even the collected heap
    /// has no room.
    #[verifier::rlimit(100)]
    #[verifier::spinoff_prover]
    pub fn create_closure_retry(&mut self, roots: &mut Vec<ValueRef>, cob_id: usize) -> (r: Result<
        ValueRef,
        RuntimeError,
    >)
        requires
            old(self).inv(),
            cob_id < INT_END as int,
            forall|i: int|
                0 <= i < old(roots)@.len() && spec_is_pointer((#[trigger] old(roots)@[i]).word)
                    ==> old(self).gen.is_obj(spec_ptr_addr(old(roots)@[i].word)),
        ensures
            final(self).inv(),
            final(roots)@ == old(roots)@,
            match r {
                Ok(v) => {
                    &&& spec_is_pointer(v.word)
                    &&& final(self).gen.is_obj(spec_ptr_addr(v.word))
                    &&& final(self).gen.len_of(spec_ptr_addr(v.word)) == 3
                    &&& final(self).gen.mem@[spec_ptr_addr(v.word) + 2]
                        == crate::value::spec_int_word(cob_id as int)
                },
                Err(e) => {
                    &&& e == RuntimeError::OutOfMemory
                    &&& crate::freelist::spec_find_fit(final(self).gen.free.list@, 3) is None
                    &&& final(self).gen.bump + 3 > final(self).gen.mem@.len()
                },
            },
    {
        let first = self.create_closure(cob_id);
        match first {
            Some(v) => Ok(v),
            None => {
                self.collect(roots);
                let second = self.create_closure(cob_id);
                match second {
                    Some(v) => Ok(v),
                    None => Err(RuntimeError::OutOfMemory),
                }
            },
        }
    }

    /// Classify a word: the immediates by their tags, and a reference by
    /// the registered type of the object it points to.
    #[verifier::rlimit(100)]
    #[verifier::spinoff_prover]
    pub fn view(&self, v: ValueRef) -> (r: ValueView)
        requires
            self.inv(),
            spec_is_pointer(v.word) ==> self.gen.is_obj(spec_ptr_addr(v.word)),
        ensures
            v.word == 0 ==> r is Null,
            crate::value::spec_is_int(v.word) ==> (r matches ValueView::Int(i) && i
                == crate::value::spec_int_value(v.word)),
            v.word == 3 ==> r == ValueView::Bool(false),
            v.word == 7 ==> r == ValueView::Bool(true),
            crate::value::spec_is_char(v.word) && crate::value::spec_is_scalar(v.word as int / 4)
                ==> (r matches ValueView::Char(c) && c as int == v.word as int / 4),
            spec_is_pointer(v.word) ==> ({
                let a = spec_ptr_addr(v.word);
                let tw = self.gen.mem@[a + 1];
                if tw == self.types.spec_get(TypeIndex::Type).word {
                    r == ValueView::Type(a as usize)
                } else if tw == self.types.spec_get(TypeIndex::Const).word {
                    r == ValueView::Const(a as usize)
                } else if tw == self.types.spec_get(TypeIndex::Closure).word {
                    r == ValueView::Closure(a as usize)
                } else {
                    r == ValueView::Opaque(a as usize)
                }
            }),
    {
        if v.is_null() {
            ValueView::Null
        } else if let Some(i) = v.as_int() {
            ValueView::Int(i)
        } else if let Some(b) = v.as_bool() {
            ValueView::Bool(b)
        } else if let Some(c) = v.as_char() {
            ValueView::Char(c)
        } else if v.is_pointer() {
            let a = (v.word / 4) as usize;
            proof {
                let i = self.gen.idx_of(a as int);
                self.gen.lemma_at(i);
                assert(self.gen.objects@[i].addr + self.gen.objects@[i].len <= self.gen.bump);
            }
            let tw = self.gen.load(a + 1);
            let tv = ValueRef { word: tw };
            let tag = self.types.index_of(tv);
            match tag {
                Some(TypeIndex::Type) => ValueView::Type(a),
                Some(TypeIndex::Const) => ValueView::Const(a),
                Some(TypeIndex::Closure) => ValueView::Closure(a),
                None => ValueView::Opaque(a),
            }
        } else {
            // A character immediate whose payload is no scalar value; it
            // cannot be produced by the constructors.
            ValueView::Opaque(0)
        }
    }
}

/// Write one bootstrap type object: link, type word, granule size and
/// reference prefix length of its instances.
fn init_type_obj(gen: &mut Generation, a: usize, link_w: u64, type_w: u64, gsz: u64, rlen: u64)
    requires
        old(gen).inv(),
        1 <= a,
        a + 4 <= old(gen).bump,
    ensures
        final(gen).inv(),
        final(gen).objects@ == old(gen).objects@,
        final(gen).bump == old(gen).bump,
        final(gen).free.list@ == old(gen).free.list@,
        final(gen).free.min == old(gen).free.min,
        final(gen).mem@.len() == old(gen).mem@.len(),
        forall|z: int|
            0 <= z < old(gen).mem@.len() && !(a <= z < a + 4) ==> final(gen).mem@[z] == old(
                gen,
            ).mem@[z],
        final(gen).mem@[a as int] == link_w,
        final(gen).mem@[a + 1] == type_w,
        final(gen).mem@[a + 2] == gsz,
        final(gen).mem@[a + 3] == rlen,
{
    gen.store(a, link_w);
    gen.store(a + 1, type_w);
    gen.store(a + 2, gsz);
    gen.store(a + 3, rlen);
}

/// The bootstrapped heap satisfies the facade invariant: three type
/// objects, the first its own type, each shaped as the registry records.
#[verifier::rlimit(100)]
proof fn lemma_bootstrap(
    r: Interpreter,
    a1: int,
    a2: int,
    a3: int,
    t1: ValueRef,
    t2: ValueRef,
    t3: ValueRef,
)
    requires
        r.gen.inv(),
        r.gen.mem@.len() <= u64::MAX as int / 4,
        r.gen.objects@.len() == 3,
        r.gen.objects@[0].addr == a1,
        r.gen.objects@[0].len == 4,
        r.gen.objects@[1].addr == a2,
        r.gen.objects@[1].len == 4,
        r.gen.objects@[2].addr == a3,
        r.gen.objects@[2].len == 4,
        t1.word == a1 * 4,
        t2.word == a2 * 4,
        t3.word == a3 * 4,
        1 <= a1,
        1 <= a2,
        1 <= a3,
        r.gen.mem@[a1 + 1] == t1.word,
        r.gen.mem@[a1 + 2] == 4,
        r.gen.mem@[a1 + 3] == 0,
        r.gen.mem@[a2 + 1] == t1.word,
        r.gen.mem@[a2 + 2] == 3,
        r.gen.mem@[a2 + 3] == 1,
        r.gen.mem@[a3 + 1] == t1.word,
        r.gen.mem@[a3 + 2] == 3,
        r.gen.mem@[a3 + 3] == 0,
        r.types.entries@.len() == 3,
        r.types.spec_get(TypeIndex::Type) == t1,
        r.types.spec_get(TypeIndex::Const) == t2,
        r.types.spec_get(TypeIndex::Closure) == t3,
    ensures
        r.inv(),
{
    r.gen.lemma_at(0);
    r.gen.lemma_at(1);
    r.gen.lemma_at(2);
    assert(spec_ptr_addr(t1.word) == a1) by (nonlinear_arith)
        requires
            t1.word == a1 * 4,
            a1 >= 1,
    ;
    assert(spec_ptr_addr(t2.word) == a2) by (nonlinear_arith)
        requires
            t2.word == a2 * 4,
            a2 >= 1,
    ;
    assert(spec_ptr_addr(t3.word) == a3) by (nonlinear_arith)
        requires
            t3.word == a3 * 4,
            a3 >= 1,
    ;
    assert(spec_is_pointer(t1.word) && spec_is_pointer(t2.word) && spec_is_pointer(t3.word))
        by (nonlinear_arith)
        requires
            t1.word == a1 * 4,
            t2.word == a2 * 4,
            t3.word == a3 * 4,
            a1 >= 1,
            a2 >= 1,
            a3 >= 1,
    ;
    assert(r.gen.wf_obj(a1));
    assert(r.gen.wf_obj(a2));
    assert(r.gen.wf_obj(a3));
    assert forall|i: int| 0 <= i < r.gen.objects@.len() implies r.gen.wf_obj(
        (#[trigger] r.gen.objects@[i]).addr as int,
    ) by {
        assert(i == 0 || i == 1 || i == 2);
    }
    assert forall|t: TypeIndex|
        {
            &&& spec_is_pointer((#[trigger] r.types.spec_get(t)).word)
            &&& r.gen.is_obj(r.type_addr(t))
            &&& r.gen.len_of(r.type_addr(t)) == 4
            &&& r.gen.mem@[r.type_addr(t) + 1] == r.types.spec_get(TypeIndex::Type).word
        } by {
        assert(spec_tag_index(t) == 0 || spec_tag_index(t) == 1 || spec_tag_index(t) == 2);
    }
}

#[verifier::rlimit(100)]
proof fn lemma_create_preserves(
    g: Interpreter,
    fin: Interpreter,
    t: TypeIndex,
    gsize: int,
    a: int,
    p0: u64,
    p1: u64,
)
    requires
        g.inv(),
        gsize == (if t == TypeIndex::Type {
            4int
        } else {
            3int
        }),
        t == TypeIndex::Const && spec_is_pointer(p0) ==> g.gen.is_obj(spec_ptr_addr(p0)),
        fin.types == g.types,
        fin.gen.inv(),
        fin.gen.bump >= g.gen.bump,
        fin.gen.mem@.len() == g.gen.mem@.len(),
        fin.gen.objects@ == g.gen.objects@.push(
            crate::heap::ObjRec { addr: a as usize, len: gsize as usize },
        ),
        1 <= a,
        a + gsize <= fin.gen.bump,
        a == a as usize,
        gsize == gsize as usize,
        forall|i: int|
            0 <= i < g.gen.objects@.len() ==> crate::heap::runs_disjoint(
                a,
                gsize,
                (#[trigger] g.gen.objects@[i]).addr as int,
                g.gen.objects@[i].len as int,
            ),
        forall|z: int|
            0 <= z < g.gen.mem@.len() && !(a <= z < a + gsize) ==> fin.gen.mem@[z]
                == g.gen.mem@[z],
        fin.gen.mem@[a] == (a * 4) as u64,
        fin.gen.mem@[a + 1] == g.types.spec_get(t).word,
        fin.gen.mem@[a + 2] == p0,
        gsize == 4 ==> fin.gen.mem@[a + 3] == p1,
    ensures
        fin.gen.is_obj(a),
        fin.gen.len_of(a) == gsize,
        fin.gen.mem@[a] == a * 4,
        fin.gen.mem@[a + 1] == g.types.spec_get(t).word,
        fin.gen.mem@[a + 2] == p0,
        gsize == 4 ==> fin.gen.mem@[a + 3] == p1,
        forall|i: int, k: int|
            0 <= i < g.gen.objects@.len() && 0 <= k < g.gen.objects@[i].len ==> fin.gen.mem@[
                #[trigger] (g.gen.objects@[i].addr + k)] == g.gen.mem@[g.gen.objects@[i].addr + k],
        forall|x: int|
            g.gen.is_obj(x) ==> fin.gen.is_obj(x) && fin.gen.len_of(x) == g.gen.len_of(x),
        fin.gen.wf_heap() ==> fin.inv(),
{
                    
                    
                    let n0 = g.gen.objects@.len() as int;
                    assert(fin.gen.objects@[n0] == (crate::heap::ObjRec { addr: a as usize, len: gsize as usize }));
                    // Old objects keep their words: the fresh slot is
                    // disjoint from each of them.
                    assert forall|i: int, k: int|
                        0 <= i < n0 && 0 <= k < g.gen.objects@[i].len implies fin.gen.mem@[
                        #[trigger] (g.gen.objects@[i].addr + k)] == g.gen.mem@[g.gen.objects@[i].addr
                        + k] by {
                        assert(crate::heap::runs_disjoint(
                            a as int,
                            gsize as int,
                            g.gen.objects@[i].addr as int,
                            g.gen.objects@[i].len as int,
                        ));
                    }
                    assert forall|x: int| g.gen.is_obj(x) implies fin.gen.is_obj(x)
                        && fin.gen.len_of(x) == g.gen.len_of(x) by {
                        let i = choose|i: int|
                            0 <= i < g.gen.objects@.len() && (#[trigger] g.gen.objects@[i]).addr
                                == x;
                        assert(fin.gen.objects@[i].addr == x);
                        fin.gen.lemma_at(i);
                        g.gen.lemma_at(i);
                    }
                    fin.gen.lemma_at(n0);
                    // Registry facts survive: the registered type objects
                    // are old objects, untouched by the fresh writes.
                    assert forall|u: TypeIndex|
                        {
                            &&& spec_is_pointer((#[trigger] fin.types.spec_get(u)).word)
                            &&& fin.gen.is_obj(fin.type_addr(u))
                            &&& fin.gen.len_of(fin.type_addr(u)) == 4
                            &&& fin.gen.mem@[fin.type_addr(u) + 1] == fin.types.spec_get(
                                TypeIndex::Type,
                            ).word
                        } by {
                        let ta = g.type_addr(u);
                        let i = g.gen.idx_of(ta);
                        g.gen.lemma_at(i);
                        assert(fin.gen.mem@[ta + 1] == g.gen.mem@[ta + 1]);
                    }
                    assert forall|u: TypeIndex| true implies {
                        &&& fin.gen.mem@[fin.type_addr(u) + 2] == g.gen.mem@[g.type_addr(u) + 2]
                        &&& fin.gen.mem@[fin.type_addr(u) + 3] == g.gen.mem@[g.type_addr(u) + 3]
                    } by {
                        let ta = g.type_addr(u);
                        let i = g.gen.idx_of(ta);
                        g.gen.lemma_at(i);
                    }

}

#[verifier::rlimit(100)]
#[verifier::spinoff_prover]
proof fn lemma_create_wf(
    g: Interpreter,
    fin: Interpreter,
    t: TypeIndex,
    gsize: int,
    a: int,
    p0: u64,
    p1: u64,
)
    requires
        g.inv(),
        gsize == (if t == TypeIndex::Type {
            4int
        } else {
            3int
        }),
        t == TypeIndex::Const && spec_is_pointer(p0) ==> g.gen.is_obj(spec_ptr_addr(p0)),
        fin.types == g.types,
        fin.gen.inv(),
        fin.gen.bump >= g.gen.bump,
        fin.gen.mem@.len() == g.gen.mem@.len(),
        fin.gen.objects@ == g.gen.objects@.push(
            crate::heap::ObjRec { addr: a as usize, len: gsize as usize },
        ),
        1 <= a,
        a + gsize <= fin.gen.bump,
        a == a as usize,
        gsize == gsize as usize,
        forall|i: int|
            0 <= i < g.gen.objects@.len() ==> crate::heap::runs_disjoint(
                a,
                gsize,
                (#[trigger] g.gen.objects@[i]).addr as int,
                g.gen.objects@[i].len as int,
            ),
        forall|z: int|
            0 <= z < g.gen.mem@.len() && !(a <= z < a + gsize) ==> fin.gen.mem@[z]
                == g.gen.mem@[z],
        fin.gen.mem@[a] == (a * 4) as u64,
        fin.gen.mem@[a + 1] == g.types.spec_get(t).word,
        fin.gen.mem@[a + 2] == p0,
        gsize == 4 ==> fin.gen.mem@[a + 3] == p1,
        fin.gen.is_obj(a),
        fin.gen.len_of(a) == gsize,
        fin.gen.mem@[a + 1] == g.types.spec_get(t).word,
        fin.gen.mem@[a + 2] == p0,
        forall|i: int, k: int|
            0 <= i < g.gen.objects@.len() && 0 <= k < g.gen.objects@[i].len ==> fin.gen.mem@[
                #[trigger] (g.gen.objects@[i].addr + k)] == g.gen.mem@[g.gen.objects@[i].addr + k],
        forall|x: int|
            g.gen.is_obj(x) ==> fin.gen.is_obj(x) && fin.gen.len_of(x) == g.gen.len_of(x),
    ensures
        fin.gen.wf_heap(),
{
    let n0 = g.gen.objects@.len() as int;
                    // The new object and the old ones are well formed for
                    // tracing.
                    assert forall|i: int| 0 <= i < fin.gen.objects@.len() implies fin.gen.wf_obj(
                        (#[trigger] fin.gen.objects@[i]).addr as int,
                    ) by {
                        if i < n0 {
                            let x = g.gen.objects@[i].addr as int;
                            g.gen.lemma_at(i);
                            fin.gen.lemma_at(i);
                            assert(g.gen.wf_obj(x));
                            assert(fin.gen.mem@[x + 1] == g.gen.mem@[x + 1]);
                            let tx = g.gen.type_addr_of(x);
                            let ti = g.gen.idx_of(tx);
                            g.gen.lemma_at(ti);
                            assert(fin.gen.mem@[tx + 3] == g.gen.mem@[tx + 3]);
                            assert(fin.gen.ref_len_of(x) == g.gen.ref_len_of(x));
                            assert forall|j: int|
                                0 <= j < fin.gen.ref_len_of(x) && spec_is_pointer(
                                    #[trigger] fin.gen.mem@[x + 2 + j],
                                ) implies fin.gen.is_obj(spec_ptr_addr(fin.gen.mem@[x + 2 + j])) by {
                                assert(fin.gen.mem@[x + 2 + j] == g.gen.mem@[x + 2 + j]);
                                assert(g.gen.is_obj(spec_ptr_addr(g.gen.mem@[x + 2 + j])));
                            }
                        } else {
                            let ta = g.type_addr(t);
                            let ti = g.gen.idx_of(ta);
                            g.gen.lemma_at(ti);
                            assert(fin.gen.mem@[ta + 3] == g.gen.mem@[ta + 3]);
                            assert(fin.gen.type_addr_of(a as int) == ta);
                            if t == TypeIndex::Const {
                                assert(fin.gen.ref_len_of(a as int) == 1);
                                assert forall|j: int|
                                    0 <= j < 1 && spec_is_pointer(
                                        #[trigger] fin.gen.mem@[a + 2 + j],
                                    ) implies fin.gen.is_obj(
                                    spec_ptr_addr(fin.gen.mem@[a + 2 + j]),
                                ) by {
                                    assert(fin.gen.mem@[a + 2] == p0);
                                }
                            } else {
                                assert(fin.gen.ref_len_of(a as int) == 0);
                            }
                        }
                    }
                    assert(fin.gen.wf_heap());
}

#[verifier::rlimit(100)]
proof fn lemma_create_finish(
    g: Interpreter,
    fin: Interpreter,
    t: TypeIndex,
    gsize: int,
    a: int,
    p0: u64,
    p1: u64,
)
    requires
        g.inv(),
        gsize == (if t == TypeIndex::Type {
            4int
        } else {
            3int
        }),
        t == TypeIndex::Const && spec_is_pointer(p0) ==> g.gen.is_obj(spec_ptr_addr(p0)),
        fin.types == g.types,
        fin.gen.inv(),
        fin.gen.bump >= g.gen.bump,
        fin.gen.mem@.len() == g.gen.mem@.len(),
        fin.gen.objects@ == g.gen.objects@.push(
            crate::heap::ObjRec { addr: a as usize, len: gsize as usize },
        ),
        1 <= a,
        a + gsize <= fin.gen.bump,
        a == a as usize,
        gsize == gsize as usize,
        forall|i: int|
            0 <= i < g.gen.objects@.len() ==> crate::heap::runs_disjoint(
                a,
                gsize,
                (#[trigger] g.gen.objects@[i]).addr as int,
                g.gen.objects@[i].len as int,
            ),
        forall|z: int|
            0 <= z < g.gen.mem@.len() && !(a <= z < a + gsize) ==> fin.gen.mem@[z]
                == g.gen.mem@[z],
        fin.gen.mem@[a] == (a * 4) as u64,
        fin.gen.mem@[a + 1] == g.types.spec_get(t).word,
        fin.gen.mem@[a + 2] == p0,
        gsize == 4 ==> fin.gen.mem@[a + 3] == p1,
    ensures
        fin.inv(),
        fin.gen.is_obj(a),
        fin.gen.len_of(a) == gsize,
        fin.gen.mem@[a] == a * 4,
        fin.gen.mem@[a + 1] == g.types.spec_get(t).word,
        fin.gen.mem@[a + 2] == p0,
        gsize == 4 ==> fin.gen.mem@[a + 3] == p1,
        forall|i: int, k: int|
            0 <= i < g.gen.objects@.len() && 0 <= k < g.gen.objects@[i].len ==> fin.gen.mem@[
                #[trigger] (g.gen.objects@[i].addr + k)] == g.gen.mem@[g.gen.objects@[i].addr + k],
        forall|x: int|
            g.gen.is_obj(x) ==> fin.gen.is_obj(x) && fin.gen.len_of(x) == g.gen.len_of(x),
{
    lemma_create_preserves(g, fin, t, gsize, a, p0, p1);
    lemma_create_wf(g, fin, t, gsize, a, p0, p1);
}


} // verus!

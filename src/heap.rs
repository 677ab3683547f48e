use vstd::prelude::*;

verus! {

/// Bytes accounted to every allocation on top of its content.
pub const ALLOCATION_OVERHEAD: usize = 48;

/// Something that can live on the heap and knows how many bytes it accounts for.
pub trait Object {
    fn size(&self) -> usize;
}

impl Object for Vec<u8> {
    fn size(&self) -> usize {
        accounted_size(self)
    }
}

/// The bytes accounted to a string of `n` bytes: its length plus the overhead, capped at
/// the largest `usize`.
pub open spec fn accounted(n: nat) -> nat {
    sat_add(n, ALLOCATION_OVERHEAD as nat)
}

/// `a + b`, capped at the largest `usize`.
pub open spec fn sat_add(a: nat, b: nat) -> nat {
    if a + b > usize::MAX {
        usize::MAX as nat
    } else {
        a + b
    }
}

pub fn accounted_size(object: &Vec<u8>) -> (r: usize)
    ensures
        r == accounted(object@.len()),
{
    object.len().saturating_add(ALLOCATION_OVERHEAD)
}

/// The bytes a slot accounts for: those of its allocation, none when it is free.
pub open spec fn slot_bytes(o: Option<Allocation>) -> nat {
    match o {
        Some(a) => a.size as nat,
        None => 0,
    }
}

/// The bytes accounted to the live slots of `objs`.
pub open spec fn total_bytes(objs: Seq<Option<Allocation>>) -> nat
    decreases objs.len(),
{
    if objs.len() == 0 {
        0
    } else {
        total_bytes(objs.drop_last()) + slot_bytes(objs.last())
    }
}

proof fn lemma_total_bytes_update(objs: Seq<Option<Allocation>>, i: int, x: Option<Allocation>)
    requires
        0 <= i < objs.len(),
    ensures
        total_bytes(objs.update(i, x)) + slot_bytes(objs[i]) == total_bytes(objs) + slot_bytes(x),
    decreases objs.len(),
{
    let u = objs.update(i, x);
    if i < objs.len() - 1 {
        assert(u.drop_last() =~= objs.drop_last().update(i, x));
        lemma_total_bytes_update(objs.drop_last(), i, x);
    } else {
        assert(u.drop_last() =~= objs.drop_last());
    }
}

proof fn lemma_total_bytes_push(objs: Seq<Option<Allocation>>, x: Option<Allocation>)
    ensures
        total_bytes(objs.push(x)) == total_bytes(objs) + slot_bytes(x),
{
    assert(objs.push(x).drop_last() =~= objs);
}

/// A heap slot: the bytes accounted for and the string it holds.
pub struct Allocation {
    pub size: usize,
    pub obj: Vec<u8>,
}

/// An opaque, copyable handle to a heap slot.
#[derive(Debug, Copy, Clone, PartialEq, Eq, Structural)]
pub struct Ref {
    pub index: usize,
}

impl Ref {
    pub fn index(&self) -> (r: usize)
        ensures
            r == self.index,
    {
        self.index
    }
}

/// An arena of strings, addressed by index, with interning.
pub struct Heap {
    bytes_allocated: usize,
    objects: Vec<Option<Allocation>>,
    free_slots: Vec<usize>,
    strings: Vec<Ref>,
    interned: Ghost<Map<Seq<u8>, Ref>>,
}

impl Heap {
    /// The slots: `None` for a free slot, else the string it holds.
    pub closed spec fn slots(&self) -> Seq<Option<Seq<u8>>> {
        self.objects@.map_values(
            |o: Option<Allocation>|
                match o {
                    Some(a) => Some(a.obj@),
                    None => None,
                },
        )
    }

    /// Interned strings, by content.
    pub closed spec fn interned(&self) -> Map<Seq<u8>, Ref> {
        self.interned@
    }

    /// The handles of interned strings, in order of interning.
    pub closed spec fn interned_list(&self) -> Seq<Ref> {
        self.strings@
    }

    /// The allocation counter.
    pub closed spec fn bytes(&self) -> nat {
        self.bytes_allocated as nat
    }

    /// The bytes accounted to the live slots; the counter is this sum, capped.
    pub closed spec fn live_bytes(&self) -> nat {
        total_bytes(self.objects@)
    }

    /// The bytes accounted to slot `i`, none when it is free.
    pub closed spec fn slot_size(&self, i: int) -> nat {
        slot_bytes(self.objects@[i])
    }

    /// The free slots; the last one is reused first.
    pub closed spec fn free_list(&self) -> Seq<usize> {
        self.free_slots@
    }

    pub open spec fn live(&self, r: Ref) -> bool {
        r.index < self.slots().len() && self.slots()[r.index as int] is Some
    }

    pub open spec fn content(&self, r: Ref) -> Seq<u8> {
        self.slots()[r.index as int]->Some_0
    }

    /// Every slot live before is live after and holds the same string.
    pub open spec fn extends(&self, other: &Heap) -> bool {
        &&& other.slots().len() <= self.slots().len()
        &&& forall|r: Ref| other.live(r) ==> #[trigger] self.live(r) && self.content(r) == other.content(r)
    }

    pub closed spec fn wf(&self) -> bool {
        &&& self.bytes_allocated as nat == sat_add(total_bytes(self.objects@), 0)
        &&& forall|k: int|
            0 <= k < self.free_slots.len() ==> {
                let i = #[trigger] self.free_slots@[k];
                &&& i < self.objects.len()
                &&& self.objects@[i as int] is None
            }
        &&& self.free_slots@.no_duplicates()
        &&& forall|s: Seq<u8>|
            #[trigger] self.interned@.contains_key(s) ==> {
                let r = self.interned@[s];
                &&& self.live(r)
                &&& self.content(r) == s
                &&& exists|j: int| 0 <= j < self.strings.len() && self.strings@[j] == r
            }
        &&& forall|j: int|
            0 <= j < self.strings.len() ==> {
                let r = #[trigger] self.strings@[j];
                &&& self.live(r)
                &&& self.interned@.contains_key(self.content(r))
                &&& self.interned@[self.content(r)] == r
            }
    }

    /// What `alloc_string` promises: the content is interned under the returned handle,
    /// a fresh slot is used only when the content was not interned yet.
    pub open spec fn alloc_string_post(old_heap: Heap, s: Seq<u8>, new_heap: Heap, r: Ref) -> bool {
        &&& new_heap.wf()
        &&& new_heap.extends(&old_heap)
        &&& new_heap.live(r)
        &&& new_heap.content(r) == s
        &&& new_heap.interned().contains_key(s)
        &&& new_heap.interned()[s] == r
        &&& old_heap.interned().contains_key(s) ==> {
            &&& r == old_heap.interned()[s]
            &&& new_heap.slots() == old_heap.slots()
            &&& new_heap.interned() == old_heap.interned()
            &&& new_heap.bytes() == old_heap.bytes()
            &&& new_heap.live_bytes() == old_heap.live_bytes()
            &&& new_heap.free_list() == old_heap.free_list()
        }
        &&& !old_heap.interned().contains_key(s) ==> {
            &&& !old_heap.live(r)
            &&& new_heap.interned() == old_heap.interned().insert(s, r)
            &&& new_heap.live_bytes() == old_heap.live_bytes() + accounted(s.len())
            &&& new_heap.bytes() == sat_add(old_heap.bytes(), accounted(s.len()))
        }
    }

    pub fn new() -> (h: Self)
        ensures
            h.wf(),
            h.slots().len() == 0,
            h.interned() == Map::<Seq<u8>, Ref>::empty(),
            h.bytes() == 0,
            h.live_bytes() == 0,
            h.free_list().len() == 0,
    {
        Self {
            bytes_allocated: 0,
            objects: Vec::new(),
            free_slots: Vec::new(),
            strings: Vec::new(),
            interned: Ghost(Map::empty()),
        }
    }

    /// Places `object` in a free slot, or a new one, without interning it.
    pub fn allocate(&mut self, object: Vec<u8>) -> (r: Ref)
        requires
            old(self).wf(),
        ensures
            final(self).wf(),
            !old(self).live(r),
            final(self).live(r),
            final(self).content(r) == object@,
            final(self).slots() == (if r.index < old(self).slots().len() {
                old(self).slots().update(r.index as int, Some(object@))
            } else {
                old(self).slots().push(Some(object@))
            }),
            final(self).interned() == old(self).interned(),
            final(self).interned_list() == old(self).interned_list(),
            final(self).live_bytes() == old(self).live_bytes() + accounted(object@.len()),
            final(self).bytes() == sat_add(old(self).bytes(), accounted(object@.len())),
            final(self).slot_size(r.index as int) == accounted(object@.len()),
            old(self).free_list().len() > 0 ==> {
                &&& r.index == old(self).free_list().last()
                &&& final(self).free_list() == old(self).free_list().drop_last()
                &&& final(self).slots().len() == old(self).slots().len()
            },
            old(self).free_list().len() == 0 ==> {
                &&& r.index == old(self).slots().len()
                &&& final(self).free_list() == old(self).free_list()
            },
    {
        let size = accounted_size(&object);
        self.bytes_allocated = self.bytes_allocated.saturating_add(size);
        let entry = Allocation { size, obj: object };
        let index = match self.free_slots.pop() {
            Some(i) => {
                proof {
                    assert(old(self).free_slots@[old(self).free_slots.len() - 1] == i);
                }
                self.objects.set(i, Some(entry));
                i
            },
            None => {
                self.objects.push(Some(entry));
                self.objects.len() - 1
            },
        };
        let r = Ref { index };
        proof {
            if index < old(self).objects.len() {
                lemma_total_bytes_update(old(self).objects@, index as int, Some(entry));
            } else {
                lemma_total_bytes_push(old(self).objects@, Some(entry));
            }
            assert(self.slots() =~= (if r.index < old(self).slots().len() {
                old(self).slots().update(r.index as int, Some(object@))
            } else {
                old(self).slots().push(Some(object@))
            }));
            assert forall|k: int| 0 <= k < self.free_slots.len() implies {
                let i = #[trigger] self.free_slots@[k];
                &&& i < self.objects.len()
                &&& self.objects@[i as int] is None
            } by {
                assert(old(self).free_slots@[k] == self.free_slots@[k]);
                if self.free_slots@[k] == index {
                    assert(old(self).free_slots@[old(self).free_slots.len() - 1] == index);
                }
            }
            assert forall|s: Seq<u8>| #[trigger] self.interned@.contains_key(s) implies {
                let q = self.interned@[s];
                &&& self.live(q)
                &&& self.content(q) == s
                &&& exists|j: int| 0 <= j < self.strings.len() && self.strings@[j] == q
            } by {
                let q = self.interned@[s];
                assert(old(self).live(q));
                assert(q.index != index);
                assert(self.slots()[q.index as int] == old(self).slots()[q.index as int]);
                let j = choose|j: int| 0 <= j < old(self).strings.len() && old(self).strings@[j] == q;
                assert(self.strings@[j] == q);
            }
            assert forall|j: int| 0 <= j < self.strings.len() implies {
                let q = #[trigger] self.strings@[j];
                &&& self.live(q)
                &&& self.interned@.contains_key(self.content(q))
                &&& self.interned@[self.content(q)] == q
            } by {
                let q = self.strings@[j];
                assert(old(self).live(q));
                assert(q.index != index);
                assert(self.slots()[q.index as int] == old(self).slots()[q.index as int]);
            }
        }
        r
    }

    /// Returns the handle under which `name` is interned, allocating it on first use.
    pub fn alloc_string(&mut self, name: Vec<u8>) -> (r: Ref)
        requires
            old(self).wf(),
        ensures
            Heap::alloc_string_post(*old(self), name@, *final(self), r),
    {
        let mut j: usize = 0;
        while j < self.strings.len()
            invariant
                self.wf(),
                0 <= j <= self.strings.len(),
                forall|k: int| 0 <= k < j ==> self.content(#[trigger] self.strings@[k]) != name@,
            decreases self.strings.len() - j,
        {
            let q = self.strings[j];
            assert(self.live(q));
            let same = match &self.objects[q.index] {
                Some(a) => bytes_equal(a.obj.as_slice(), name.as_slice()),
                None => false,
            };
            if same {
                proof {
                    assert(self.content(q) == name@);
                }
                return q;
            }
            j += 1;
        }
        proof {
            if self.interned@.contains_key(name@) {
                let q = self.interned@[name@];
                let k = choose|k: int| 0 <= k < self.strings.len() && self.strings@[k] == q;
                assert(self.content(self.strings@[k]) != name@);
            }
        }
        let r = self.allocate(name.clone());
        self.strings.push(r);
        proof {
            self.interned@ = self.interned@.insert(name@, r);
            let n = self.strings.len() - 1;
            assert(self.strings@[n as int] == r);
            assert forall|s: Seq<u8>| #[trigger] self.interned@.contains_key(s) implies {
                let q = self.interned@[s];
                &&& self.live(q)
                &&& self.content(q) == s
                &&& exists|j: int| 0 <= j < self.strings.len() && self.strings@[j] == q
            } by {
                if s != name@ {
                    let q = self.interned@[s];
                    let k = choose|k: int| 0 <= k < old(self).strings.len() && old(self).strings@[k] == q;
                    assert(self.strings@[k] == q);
                } else {
                    assert(self.strings@[n as int] == r);
                }
            }
            assert forall|j: int| 0 <= j < self.strings.len() implies {
                let q = #[trigger] self.strings@[j];
                &&& self.live(q)
                &&& self.interned@.contains_key(self.content(q))
                &&& self.interned@[self.content(q)] == q
            } by {
                if j < n {
                    let q = self.strings@[j];
                    assert(old(self).strings@[j] == q);
                    assert(old(self).live(q));
                    assert(self.content(q) != name@);
                }
            }
        }
        r
    }

    /// `self` is `prev` with the string at `r` replaced by `s`.
    pub closed spec fn rewritten(&self, prev: &Heap, r: Ref, s: Seq<u8>) -> bool {
        &&& r.index < prev.objects.len()
        &&& prev.objects@[r.index as int] is Some
        &&& self.objects@ == prev.objects@.update(
            r.index as int,
            Some(Allocation { size: prev.objects@[r.index as int]->Some_0.size, obj: self.objects@[r.index as int]->Some_0.obj }),
        )
        &&& self.objects@[r.index as int] is Some
        &&& self.objects@[r.index as int]->Some_0.obj@ == s
        &&& self.free_slots == prev.free_slots
        &&& self.strings == prev.strings
        &&& self.interned == prev.interned
        &&& self.bytes_allocated == prev.bytes_allocated
    }

    /// Changing a string that is not interned keeps the heap well formed.
    pub broadcast proof fn lemma_rewritten_wf(h: Heap, prev: Heap, r: Ref, s: Seq<u8>)
        requires
            prev.wf(),
            !prev.is_interned(r),
            #[trigger] h.rewritten(&prev, r, s),
        ensures
            h.wf(),
    {
        lemma_total_bytes_update(prev.objects@, r.index as int, h.objects@[r.index as int]);
        assert(h.objects@ == prev.objects@.update(r.index as int, h.objects@[r.index as int]));
        assert forall|k: int| 0 <= k < h.free_slots.len() implies {
            let i = #[trigger] h.free_slots@[k];
            &&& i < h.objects.len()
            &&& h.objects@[i as int] is None
        } by {
            assert(prev.free_slots@[k] == h.free_slots@[k]);
        }
        assert forall|t: Seq<u8>| #[trigger] h.interned@.contains_key(t) implies {
            let q = h.interned@[t];
            &&& h.live(q)
            &&& h.content(q) == t
            &&& exists|j: int| 0 <= j < h.strings.len() && h.strings@[j] == q
        } by {
            let q = h.interned@[t];
            assert(prev.interned().contains_key(t) && prev.interned()[t] == q);
            assert(q != r);
            assert(h.slots()[q.index as int] == prev.slots()[q.index as int]);
        }
        assert forall|j: int| 0 <= j < h.strings.len() implies {
            let q = #[trigger] h.strings@[j];
            &&& h.live(q)
            &&& h.interned@.contains_key(h.content(q))
            &&& h.interned@[h.content(q)] == q
        } by {
            let q = h.strings@[j];
            assert(prev.interned@.contains_key(prev.content(q)));
            assert(prev.interned().contains_key(prev.content(q)) && prev.interned()[prev.content(q)] == q);
            assert(q != r);
            assert(h.slots()[q.index as int] == prev.slots()[q.index as int]);
        }
    }

    /// `r` is the handle of some interned string.
    pub open spec fn is_interned(&self, r: Ref) -> bool {
        exists|s: Seq<u8>| self.interned().contains_key(s) && self.interned()[s] == r
    }

    /// The string held at `reference`, to change in place. Interned strings cannot be
    /// changed: their content is their identity.
    pub fn deref_mut(&mut self, reference: Ref) -> (s: &mut Vec<u8>)
        requires
            old(self).wf(),
            old(self).live(reference),
            !old(self).is_interned(reference),
        ensures
            s@ == old(self).content(reference),
            final(self).rewritten(old(self), reference, final(s)@),
            final(self).bytes() == old(self).bytes(),
            final(self).free_list() == old(self).free_list(),
            final(self).slots() == old(self).slots().update(reference.index as int, Some(final(s)@)),
            final(self).interned() == old(self).interned(),
            final(self).interned_list() == old(self).interned_list(),
    {
        let ghost i = reference.index as int;
        let ghost objs = self.objects@;
        proof {
            assert(self.slots()[i] is Some);
            assert(objs[i] is Some);
        }
        let slot = vec_index_mut(&mut self.objects, reference.index);
        let a = slot.as_mut().unwrap();
        &mut a.obj
    }

    /// The allocation counter: the bytes accounted to the live slots, capped.
    pub fn bytes_allocated(&self) -> (r: usize)
        ensures
            r == self.bytes(),
    {
        self.bytes_allocated
    }

    /// The string held at `reference`.
    pub fn deref(&self, reference: Ref) -> (s: &Vec<u8>)
        requires
            self.wf(),
            self.live(reference),
        ensures
            s@ == self.content(reference),
    {
        match &self.objects[reference.index] {
            Some(a) => &a.obj,
            None => {
                proof {
                    assert(self.slots()[reference.index as int] is None);
                }
                &self.objects[reference.index].as_ref().unwrap().obj
            },
        }
    }
}

fn vec_index_mut<T>(v: &mut Vec<T>, i: usize) -> (e: &mut T)
    requires
        i < old(v).len(),
    ensures
        *e == old(v)@[i as int],
        final(v)@ == old(v)@.update(i as int, *final(e)),
{
    &mut v[i]
}

/// Interning the same content twice yields the same handle, and the second call
/// leaves the slots as they were.
pub proof fn lemma_alloc_string_twice(
    h0: Heap,
    h1: Heap,
    h2: Heap,
    s: Seq<u8>,
    r1: Ref,
    r2: Ref,
)
    requires
        h0.wf(),
        Heap::alloc_string_post(h0, s, h1, r1),
        Heap::alloc_string_post(h1, s, h2, r2),
    ensures
        r1 == r2,
        r1.index == r2.index,
        h2.slots() == h1.slots(),
        h2.bytes() == h1.bytes(),
        h2.free_list() == h1.free_list(),
{
}

pub broadcast group group_heap_lemmas {
    Heap::lemma_rewritten_wf,
}

/// Compares two byte strings.
pub fn bytes_equal(a: &[u8], b: &[u8]) -> (r: bool)
    ensures
        r == (a@ == b@),
{
    if a.len() != b.len() {
        return false;
    }
    let mut i: usize = 0;
    while i < a.len()
        invariant
            a@.len() == b@.len(),
            0 <= i <= a.len(),
            forall|k: int| 0 <= k < i ==> a@[k] == b@[k],
        decreases a.len() - i,
    {
        if a[i] != b[i] {
            return false;
        }
        i += 1;
    }
    assert(a@ =~= b@);
    true
}

} // verus!

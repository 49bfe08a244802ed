//! Partitioned heap of the forwarding collector.
//!
//! The dynamic heap is split into `MAX_PARTITIONS` partitions of
//! `PARTITION_SLOTS` object slots each. The object in slot `k` of partition
//! `p` lives at address `base + (p * PARTITION_SLOTS + k) * WORD_SIZE`.
//! Allocation bumps the slots of the current allocation partition and opens
//! a fresh partition when that one is full. Besides its slots, a partition
//! has a budget of `PARTITION_WORDS` words, and counts the words of its
//! objects and of its marked objects.
use vstd::prelude::*;
use crate::value::{Value, WORD_SIZE};
use crate::range::Range;

verus! {

pub const MAX_PARTITIONS: usize = 64;
pub const PARTITION_SLOTS: usize = 256;
pub const PARTITION_WORDS: usize = 0x10_0000;
/// Words of an object header: the tag and the forwarding slot.
pub const HEADER_WORDS: usize = 2;
/// Highest address of the heap.
pub const HEAP_LIMIT: usize = 0x7000_0000;

pub const TAG_OBJECT: u32 = 1;
pub const TAG_ARRAY: u32 = 3;
pub const TAG_MUTBOX: u32 = 5;
pub const TAG_BLOB: u32 = 7;
pub const TAG_BIGINT: u32 = 9;
pub const TAG_NULL: u32 = 11;
/// An array whose marking is in progress has the tag
/// `TAG_ARRAY_SLICE_MIN + start`, where `start` is the next element to scan.
pub const TAG_ARRAY_SLICE_MIN: u32 = 32;

/// A heap object.
pub struct Object {
    pub tag: u32,
    pub marked: bool,
    /// Address of the object's current copy: its own address unless it was
    /// evacuated.
    pub forward: usize,
    /// The fields, or array elements, or payload words of a blob or bigint.
    pub fields: Vec<Value>,
}

pub struct Partition {
    pub index: usize,
    pub objects: Vec<Object>,
    /// Words of all objects in the partition.
    pub occupied: usize,
    /// Words of the marked objects in the partition.
    pub marked_size: usize,
    pub to_be_evacuated: bool,
}

pub struct PartitionedHeap {
    pub base: usize,
    pub partitions: Vec<Partition>,
    pub allocation_index: usize,
}

/// Whether objects with this tag hold pointers in their fields.
pub open spec fn has_pointer_fields(tag: u32) -> bool {
    tag == TAG_OBJECT || tag == TAG_ARRAY || tag == TAG_MUTBOX || tag >= TAG_ARRAY_SLICE_MIN
}

/// Whether the tag is an array's, in progress of being sliced or not.
pub open spec fn is_array_tag(tag: u32) -> bool {
    tag == TAG_ARRAY || tag >= TAG_ARRAY_SLICE_MIN
}

/// Size of an object in words.
pub open spec fn object_size(o: Object) -> int {
    HEADER_WORDS + o.fields@.len()
}

/// What an object adds to a word count: all objects, or the marked ones.
pub open spec fn contribution(o: Object, marked_only: bool) -> int {
    if !marked_only || o.marked {
        object_size(o)
    } else {
        0
    }
}

/// Words of the objects in `objects`, all or the marked ones.
pub open spec fn words(objects: Seq<Object>, marked_only: bool) -> int
    decreases objects.len(),
{
    if objects.len() == 0 {
        0
    } else {
        words(objects.drop_last(), marked_only) + contribution(objects.last(), marked_only)
    }
}

pub proof fn lemma_words_update(objects: Seq<Object>, k: int, o: Object, marked_only: bool)
    requires
        0 <= k < objects.len(),
    ensures
        words(objects.update(k, o), marked_only) == words(objects, marked_only) - contribution(
            objects[k],
            marked_only,
        ) + contribution(o, marked_only),
    decreases objects.len(),
{
    let u = objects.update(k, o);
    if k < objects.len() - 1 {
        lemma_words_update(objects.drop_last(), k, o, marked_only);
        assert(u.drop_last() =~= objects.drop_last().update(k, o));
    } else {
        assert(u.drop_last() =~= objects.drop_last());
    }
}

pub proof fn lemma_words_marked_le_all(objects: Seq<Object>)
    ensures
        0 <= words(objects, true) <= words(objects, false),
    decreases objects.len(),
{
    if objects.len() > 0 {
        lemma_words_marked_le_all(objects.drop_last());
    }
}

pub proof fn lemma_words_element(objects: Seq<Object>, k: int, marked_only: bool)
    requires
        0 <= k < objects.len(),
    ensures
        0 <= contribution(objects[k], marked_only) <= words(objects, marked_only),
    decreases objects.len(),
{
    lemma_words_marked_le_all(objects.drop_last());
    if k < objects.len() - 1 {
        lemma_words_element(objects.drop_last(), k, marked_only);
        assert(objects.drop_last()[k] == objects[k]);
    }
    if marked_only {
        lemma_words_marked_le_all(objects.drop_last());
    } else {
        lemma_words_nonneg(objects.drop_last());
    }
}

pub proof fn lemma_words_nonneg(objects: Seq<Object>)
    ensures
        words(objects, false) >= 0,
        words(objects, true) >= 0,
{
    lemma_words_marked_le_all(objects);
}

pub proof fn lemma_words_unmarked(objects: Seq<Object>)
    requires
        forall|i: int| 0 <= i < objects.len() ==> !(#[trigger] objects[i]).marked,
    ensures
        words(objects, true) == 0,
    decreases objects.len(),
{
    if objects.len() > 0 {
        let d = objects.drop_last();
        assert forall|i: int| 0 <= i < d.len() implies !(#[trigger] d[i]).marked by {
            assert(d[i] == objects[i]);
        }
        lemma_words_unmarked(d);
    }
}

/// Address of slot `k` of partition `p`.
pub open spec fn slot_address(base: int, p: int, k: int) -> int {
    base + (p * PARTITION_SLOTS + k) * WORD_SIZE
}

pub proof fn lemma_slot_address(base: int, p: int, k: int)
    requires
        base % (WORD_SIZE as int) == 0,
        0 <= p,
        0 <= k < PARTITION_SLOTS,
    ensures
        slot_address(base, p, k) % (WORD_SIZE as int) == 0,
        (slot_address(base, p, k) - base) / (WORD_SIZE as int) == p * PARTITION_SLOTS + k,
        (slot_address(base, p, k) - base) % (WORD_SIZE as int) == 0,
        (p * PARTITION_SLOTS + k) / (PARTITION_SLOTS as int) == p,
        (p * PARTITION_SLOTS + k) % (PARTITION_SLOTS as int) == k,
{
    let n = p * 256 + k;
    assert(n / 256 == p && n % 256 == k) by (nonlinear_arith)
        requires
            n == p * 256 + k,
            0 <= k < 256,
            0 <= p,
    ;
}

/// Every object forwards to itself or, if it was evacuated, to an object of
/// a partition that is not being evacuated, which forwards to itself.
pub proof fn law_forwarding_target(heap: PartitionedHeap, p: int, k: int)
    requires
        heap.wf(),
        0 <= p < MAX_PARTITIONS,
        0 <= k < heap.partitions@[p].objects@.len(),
    ensures
        heap.obj(p, k).forward == heap.address_of(p, k) || {
            let f = heap.obj(p, k).forward as int;
            &&& heap.is_object_address(f)
            &&& !heap.is_evacuated_address(f)
            &&& heap.object_at(f).forward == f
        },
{
    assert(heap.forward_ok(p, k));
}

impl Object {
    /// Size of the object in words.
    pub fn size(&self) -> (r: usize)
        requires
            self.fields@.len() <= PARTITION_WORDS,
        ensures
            r == object_size(*self),
    {
        HEADER_WORDS + self.fields.len()
    }

    /// A copy of the object.
    pub fn copy(&self) -> (r: Object)
        ensures
            r.tag == self.tag,
            r.marked == self.marked,
            r.forward == self.forward,
            r.fields@ == self.fields@,
    {
        let mut fields: Vec<Value> = Vec::new();
        let mut i: usize = 0;
        while i < self.fields.len()
            invariant
                i <= self.fields@.len(),
                fields@ == self.fields@.subrange(0, i as int),
            decreases self.fields@.len() - i,
        {
            fields.push(self.fields[i]);
            i = i + 1;
            assert(fields@ =~= self.fields@.subrange(0, i as int));
        }
        assert(fields@ =~= self.fields@);
        Object { tag: self.tag, marked: self.marked, forward: self.forward, fields }
    }
}

impl PartitionedHeap {
    pub open spec fn obj(&self, p: int, k: int) -> Object {
        self.partitions@[p].objects@[k]
    }

    pub open spec fn address_of(&self, p: int, k: int) -> int {
        slot_address(self.base as int, p, k)
    }

    /// Partition of the address `a`.
    pub open spec fn partition_of(&self, a: int) -> int {
        ((a - self.base) / (WORD_SIZE as int)) / (PARTITION_SLOTS as int)
    }

    /// Slot of the address `a` within its partition.
    pub open spec fn slot_of(&self, a: int) -> int {
        ((a - self.base) / (WORD_SIZE as int)) % (PARTITION_SLOTS as int)
    }

    /// `a` is the address of an object in the heap.
    pub open spec fn is_object_address(&self, a: int) -> bool {
        &&& self.base <= a
        &&& (a - self.base) % (WORD_SIZE as int) == 0
        &&& self.partition_of(a) < self.partitions@.len()
        &&& self.slot_of(a) < self.partitions@[self.partition_of(a)].objects@.len()
    }

    /// `v` points to an object in the heap.
    pub open spec fn is_heap_pointer(&self, v: Value) -> bool {
        v.is_ptr_spec() && self.is_object_address(v.address())
    }

    /// The object at an object address.
    pub open spec fn object_at(&self, a: int) -> Object {
        self.obj(self.partition_of(a), self.slot_of(a))
    }

    /// The object a heap pointer points to.
    pub open spec fn target(&self, v: Value) -> Object {
        self.object_at(v.address())
    }

    pub open spec fn is_evacuated_address(&self, a: int) -> bool {
        self.partitions@[self.partition_of(a)].to_be_evacuated
    }

    /// The object in slot `k` of partition `p` has been evacuated.
    pub open spec fn is_forwarded(&self, p: int, k: int) -> bool {
        self.obj(p, k).forward != self.address_of(p, k)
    }

    /// Forwarding of an object: it is its own copy, or its copy is an object
    /// of a partition that is not being evacuated and is its own copy.
    pub open spec fn forward_ok(&self, p: int, k: int) -> bool {
        let f = self.obj(p, k).forward as int;
        f == self.address_of(p, k) || {
            &&& self.partitions@[p].to_be_evacuated
            &&& self.is_object_address(f)
            &&& !self.is_evacuated_address(f)
            &&& self.object_at(f).forward == f
        }
    }

    pub open spec fn partition_ok(&self, p: int) -> bool {
        let part = self.partitions@[p];
        &&& part.index == p
        &&& part.objects@.len() <= PARTITION_SLOTS
        &&& part.occupied == words(part.objects@, false)
        &&& part.marked_size == words(part.objects@, true)
        &&& part.occupied <= PARTITION_WORDS
    }

    pub open spec fn wf(&self) -> bool {
        &&& self.base % WORD_SIZE == 0
        &&& self.base > 0
        &&& self.base + MAX_PARTITIONS * PARTITION_SLOTS * WORD_SIZE <= HEAP_LIMIT
        &&& self.partitions@.len() == MAX_PARTITIONS
        &&& self.allocation_index < MAX_PARTITIONS
        &&& !self.partitions@[self.allocation_index as int].to_be_evacuated
        &&& forall|p: int| 0 <= p < MAX_PARTITIONS ==> #[trigger] self.partition_ok(p)
        &&& forall|p: int, k: int| 0 <= p < MAX_PARTITIONS && 0 <= k < self.partitions@[p].objects@.len()
            ==> #[trigger] self.forward_ok(p, k)
    }

    /// Heap content apart from mark bits.
    pub open spec fn same_content(&self, other: &PartitionedHeap) -> bool {
        &&& self.base == other.base
        &&& self.allocation_index == other.allocation_index
        &&& self.partitions@.len() == other.partitions@.len()
        &&& forall|p: int| 0 <= p < self.partitions@.len() ==> {
            &&& (#[trigger] self.partitions@[p]).objects@.len() == other.partitions@[p].objects@.len()
            &&& self.partitions@[p].to_be_evacuated == other.partitions@[p].to_be_evacuated
            &&& self.partitions@[p].occupied == other.partitions@[p].occupied
        }
        &&& forall|p: int, k: int| 0 <= p < self.partitions@.len() && 0 <= k < self.partitions@[p].objects@.len() ==> {
            &&& (#[trigger] self.obj(p, k)).fields@ == other.obj(p, k).fields@
            &&& self.obj(p, k).forward == other.obj(p, k).forward
        }
    }

    /// Heap layout as in `other`: same partitions, flags and objects with
    /// the same tags and forwarding; mark bits and fields may differ.
    pub open spec fn same_content_except_fields(&self, other: &PartitionedHeap) -> bool {
        &&& self.base == other.base
        &&& self.allocation_index == other.allocation_index
        &&& self.partitions@.len() == other.partitions@.len()
        &&& forall|p: int| 0 <= p < self.partitions@.len() ==> {
            &&& (#[trigger] self.partitions@[p]).objects@.len() == other.partitions@[p].objects@.len()
            &&& self.partitions@[p].to_be_evacuated == other.partitions@[p].to_be_evacuated
        }
        &&& forall|p: int, k: int| 0 <= p < self.partitions@.len() && 0 <= k < self.partitions@[p].objects@.len() ==> {
            &&& (#[trigger] self.obj(p, k)).forward == other.obj(p, k).forward
            &&& self.obj(p, k).tag == other.obj(p, k).tag
            &&& self.obj(p, k).fields@.len() == other.obj(p, k).fields@.len()
        }
    }

    /// Whether the object at `a` is marked.
    pub open spec fn is_marked_address(&self, a: int) -> bool {
        self.object_at(a).marked
    }

    pub proof fn lemma_address_decodes(&self, p: int, k: int)
        requires
            self.wf(),
            0 <= p < MAX_PARTITIONS,
            0 <= k < self.partitions@[p].objects@.len(),
        ensures
            self.is_object_address(self.address_of(p, k)),
            self.partition_of(self.address_of(p, k)) == p,
            self.slot_of(self.address_of(p, k)) == k,
            self.address_of(p, k) % (WORD_SIZE as int) == 0,
            0 < self.address_of(p, k) < HEAP_LIMIT,
    {
        assert(self.partition_ok(p));
        lemma_slot_address(self.base as int, p, k);
        assert(p * PARTITION_SLOTS + k < MAX_PARTITIONS * PARTITION_SLOTS) by (nonlinear_arith)
            requires
                0 <= p < MAX_PARTITIONS,
                0 <= k < PARTITION_SLOTS,
        ;
    }

    pub proof fn lemma_object_address(&self, a: int)
        requires
            self.wf(),
            self.is_object_address(a),
        ensures
            0 <= self.partition_of(a) < MAX_PARTITIONS,
            0 <= self.slot_of(a) < self.partitions@[self.partition_of(a)].objects@.len(),
            a == self.address_of(self.partition_of(a), self.slot_of(a)),
            a % (WORD_SIZE as int) == 0,
            0 < a < HEAP_LIMIT,
    {
        let n = (a - self.base) / 4;
        let p = self.partition_of(a);
        let k = self.slot_of(a);
        assert(n == p * 256 + k) by (nonlinear_arith)
            requires
                n >= 0,
                p == n / 256,
                k == n % 256,
        ;
        self.lemma_address_decodes(p, k);
    }

    /// An empty heap whose dynamic part starts at `base`.
    pub fn new(base: usize) -> (r: PartitionedHeap)
        requires
            base > 0,
            base % WORD_SIZE == 0,
            base + MAX_PARTITIONS * PARTITION_SLOTS * WORD_SIZE <= HEAP_LIMIT,
        ensures
            r.wf(),
            r.base == base,
            r.allocation_index == 0,
            forall|p: int| 0 <= p < MAX_PARTITIONS ==> (#[trigger] r.partitions@[p]).objects@.len() == 0
                && !r.partitions@[p].to_be_evacuated,
    {
        let mut partitions: Vec<Partition> = Vec::new();
        let mut i: usize = 0;
        while i < MAX_PARTITIONS
            invariant
                i <= MAX_PARTITIONS,
                partitions@.len() == i,
                forall|p: int| 0 <= p < i ==> {
                    &&& (#[trigger] partitions@[p]).index == p
                    &&& partitions@[p].objects@.len() == 0
                    &&& partitions@[p].occupied == 0
                    &&& partitions@[p].marked_size == 0
                    &&& !partitions@[p].to_be_evacuated
                },
            decreases MAX_PARTITIONS - i,
        {
            partitions.push(Partition {
                index: i,
                objects: Vec::new(),
                occupied: 0,
                marked_size: 0,
                to_be_evacuated: false,
            });
            i = i + 1;
        }
        let heap = PartitionedHeap { base, partitions, allocation_index: 0 };
        assert forall|p: int| 0 <= p < MAX_PARTITIONS implies #[trigger] heap.partition_ok(p) by {
            assert(heap.partitions@[p].objects@ =~= Seq::<Object>::empty());
        }
        heap
    }

    /// Lowest address of the dynamic heap; addresses below are static.
    pub fn base_address(&self) -> (r: usize)
        ensures
            r == self.base,
    {
        self.base
    }

    /// The slot an address denotes, when it is that of a heap object.
    pub fn lookup(&self, value: Value) -> (r: Option<(usize, usize)>)
        requires
            self.wf(),
        ensures
            r.is_some() == self.is_heap_pointer(value),
            r matches Some((p, k)) ==> {
                &&& p < MAX_PARTITIONS
                &&& k < self.partitions@[p as int].objects@.len()
                &&& p == self.partition_of(value.address())
                &&& k == self.slot_of(value.address())
                &&& value.address() == self.address_of(p as int, k as int)
            },
    {
        if !value.is_ptr() || value.raw >= HEAP_LIMIT {
            proof {
                if self.is_heap_pointer(value) {
                    self.lemma_object_address(value.address());
                }
            }
            return None;
        }
        let a = value.get_ptr();
        if a < self.base || (a - self.base) % WORD_SIZE != 0 {
            return None;
        }
        let n = (a - self.base) / WORD_SIZE;
        let p = n / PARTITION_SLOTS;
        let k = n % PARTITION_SLOTS;
        if p >= self.partitions.len() || k >= self.partitions[p].objects.len() {
            return None;
        }
        proof {
            self.lemma_object_address(a as int);
        }
        Some((p, k))
    }

    /// Address of slot `k` of partition `p`.
    pub fn slot_address(&self, p: usize, k: usize) -> (r: usize)
        requires
            self.wf(),
            p < MAX_PARTITIONS,
            k < self.partitions@[p as int].objects@.len(),
        ensures
            r == self.address_of(p as int, k as int),
            r % WORD_SIZE == 0,
            0 < r < HEAP_LIMIT,
    {
        proof {
            self.lemma_address_decodes(p as int, k as int);
        }
        self.base + (p * PARTITION_SLOTS + k) * WORD_SIZE
    }

    /// The heap is `old` but for the object in slot `k` of partition `p`.
    pub open spec fn agrees_except(&self, old: &PartitionedHeap, p: int, k: int) -> bool {
        &&& self.base == old.base
        &&& self.allocation_index == old.allocation_index
        &&& self.partitions@.len() == old.partitions@.len()
        &&& forall|q: int| 0 <= q < self.partitions@.len() ==> {
            &&& (#[trigger] self.partitions@[q]).objects@.len() == old.partitions@[q].objects@.len()
            &&& self.partitions@[q].to_be_evacuated == old.partitions@[q].to_be_evacuated
        }
        &&& forall|q: int, j: int| 0 <= q < self.partitions@.len() && 0 <= j < self.partitions@[q].objects@.len()
            && (q != p || j != k) ==> #[trigger] self.obj(q, j) == old.obj(q, j)
    }

    /// Set or clear the mark bit of an object, keeping the partition's count
    /// of marked words.
    pub fn set_mark(&mut self, p: usize, k: usize, marked: bool)
        requires
            old(self).wf(),
            p < MAX_PARTITIONS,
            k < old(self).partitions@[p as int].objects@.len(),
        ensures
            final(self).wf(),
            final(self).agrees_except(old(self), p as int, k as int),
            final(self).obj(p as int, k as int).marked == marked,
            final(self).obj(p as int, k as int).tag == old(self).obj(p as int, k as int).tag,
            final(self).obj(p as int, k as int).forward == old(self).obj(p as int, k as int).forward,
            final(self).obj(p as int, k as int).fields == old(self).obj(p as int, k as int).fields,
    {
        proof {
            assert(self.partition_ok(p as int));
        }
        let was = self.partitions[p].objects[k].marked;
        let ghost old_objects = self.partitions@[p as int].objects@;
        proof {
            lemma_words_element(old_objects, k as int, false);
            lemma_words_element(old_objects, k as int, true);
            let marked_copy = Object { marked: true, ..old_objects[k as int] };
            lemma_words_update(old_objects, k as int, marked_copy, true);
            lemma_words_update(old_objects, k as int, marked_copy, false);
            lemma_words_marked_le_all(old_objects.update(k as int, marked_copy));
        }
        let size = self.partitions[p].objects[k].size();
        self.partitions[p].objects[k].marked = marked;
        if was && !marked {
            self.partitions[p].marked_size = self.partitions[p].marked_size - size;
        } else if !was && marked {
            self.partitions[p].marked_size = self.partitions[p].marked_size + size;
        }
        proof {
            let new_objects = self.partitions@[p as int].objects@;
            assert(new_objects =~= old_objects.update(k as int, new_objects[k as int]));
            lemma_words_update(old_objects, k as int, new_objects[k as int], true);
            lemma_words_update(old_objects, k as int, new_objects[k as int], false);
            self.lemma_preserved_except(old(self), p as int, k as int);
        }
    }

    /// Change the tag of an object.
    pub fn set_tag(&mut self, p: usize, k: usize, tag: u32)
        requires
            old(self).wf(),
            p < MAX_PARTITIONS,
            k < old(self).partitions@[p as int].objects@.len(),
        ensures
            final(self).wf(),
            final(self).agrees_except(old(self), p as int, k as int),
            final(self).obj(p as int, k as int).marked == old(self).obj(p as int, k as int).marked,
            final(self).obj(p as int, k as int).tag == tag,
            final(self).obj(p as int, k as int).forward == old(self).obj(p as int, k as int).forward,
            final(self).obj(p as int, k as int).fields == old(self).obj(p as int, k as int).fields,
    {
        let ghost old_objects = self.partitions@[p as int].objects@;
        proof {
            assert(self.partition_ok(p as int));
        }
        self.partitions[p].objects[k].tag = tag;
        proof {
            let new_objects = self.partitions@[p as int].objects@;
            assert(new_objects =~= old_objects.update(k as int, new_objects[k as int]));
            lemma_words_update(old_objects, k as int, new_objects[k as int], true);
            lemma_words_update(old_objects, k as int, new_objects[k as int], false);
            self.lemma_preserved_except(old(self), p as int, k as int);
        }
    }

    /// Write a field of an object.
    pub fn set_field(&mut self, p: usize, k: usize, i: usize, value: Value)
        requires
            old(self).wf(),
            p < MAX_PARTITIONS,
            k < old(self).partitions@[p as int].objects@.len(),
            i < old(self).obj(p as int, k as int).fields@.len(),
        ensures
            final(self).wf(),
            final(self).agrees_except(old(self), p as int, k as int),
            final(self).obj(p as int, k as int).marked == old(self).obj(p as int, k as int).marked,
            final(self).obj(p as int, k as int).tag == old(self).obj(p as int, k as int).tag,
            final(self).obj(p as int, k as int).forward == old(self).obj(p as int, k as int).forward,
            final(self).obj(p as int, k as int).fields@ == old(self).obj(p as int, k as int).fields@.update(i as int, value),
    {
        let ghost old_objects = self.partitions@[p as int].objects@;
        proof {
            assert(self.partition_ok(p as int));
        }
        self.partitions[p].objects[k].fields.set(i, value);
        proof {
            let new_objects = self.partitions@[p as int].objects@;
            assert(new_objects =~= old_objects.update(k as int, new_objects[k as int]));
            lemma_words_update(old_objects, k as int, new_objects[k as int], true);
            lemma_words_update(old_objects, k as int, new_objects[k as int], false);
            self.lemma_preserved_except(old(self), p as int, k as int);
        }
    }

    /// Record that the object in slot `k` of partition `p` was copied to the
    /// object at `to`.
    pub fn set_forward(&mut self, p: usize, k: usize, to: usize)
        requires
            old(self).wf(),
            p < MAX_PARTITIONS,
            k < old(self).partitions@[p as int].objects@.len(),
            old(self).partitions@[p as int].to_be_evacuated,
            old(self).is_object_address(to as int),
            !old(self).is_evacuated_address(to as int),
            old(self).object_at(to as int).forward == to,
        ensures
            final(self).wf(),
            final(self).agrees_except(old(self), p as int, k as int),
            final(self).obj(p as int, k as int).marked == old(self).obj(p as int, k as int).marked,
            final(self).obj(p as int, k as int).tag == old(self).obj(p as int, k as int).tag,
            final(self).obj(p as int, k as int).forward == to,
            final(self).obj(p as int, k as int).fields == old(self).obj(p as int, k as int).fields,
    {
        let ghost old_objects = self.partitions@[p as int].objects@;
        proof {
            assert(self.partition_ok(p as int));
            self.lemma_object_address(to as int);
        }
        self.partitions[p].objects[k].forward = to;
        proof {
            let new_objects = self.partitions@[p as int].objects@;
            assert(new_objects =~= old_objects.update(k as int, new_objects[k as int]));
            lemma_words_update(old_objects, k as int, new_objects[k as int], true);
            lemma_words_update(old_objects, k as int, new_objects[k as int], false);
            assert(self.partition_ok(p as int));
            assert forall|q: int| 0 <= q < MAX_PARTITIONS implies #[trigger] self.partition_ok(q) by {
                assert(old(self).partition_ok(q));
            }
            assert forall|q: int, j: int| 0 <= q < MAX_PARTITIONS && 0 <= j < self.partitions@[q].objects@.len()
                implies #[trigger] self.forward_ok(q, j) by {
                assert(old(self).forward_ok(q, j));
                if q != p || j != k {
                    let f = self.obj(q, j).forward as int;
                    if f != self.address_of(q, j) {
                        old(self).lemma_object_address(f);
                        if self.partition_of(f) == p && self.slot_of(f) == k {
                            assert(old(self).is_evacuated_address(f));
                        }
                    }
                }
            }
        }
    }

    /// The heap `old` with the object in slot `k` of partition `p` changed in
    /// its mark bit, tag or fields only is well formed.
    proof fn lemma_preserved_except(&self, old: &PartitionedHeap, p: int, k: int)
        requires
            old.wf(),
            0 <= p < MAX_PARTITIONS,
            0 <= k < old.partitions@[p].objects@.len(),
            self.agrees_except(old, p, k),
            self.obj(p, k).forward == old.obj(p, k).forward,
            self.partitions@[p].index == old.partitions@[p].index,
            self.partitions@[p].occupied == words(self.partitions@[p].objects@, false),
            self.partitions@[p].marked_size == words(self.partitions@[p].objects@, true),
            self.partitions@[p].occupied <= PARTITION_WORDS,
            forall|q: int| 0 <= q < MAX_PARTITIONS && q != p ==> #[trigger] self.partitions@[q] == old.partitions@[q],
        ensures
            self.wf(),
    {
        assert forall|q: int| 0 <= q < MAX_PARTITIONS implies #[trigger] self.partition_ok(q) by {
            assert(old.partition_ok(q));
        }
        assert forall|q: int, j: int| 0 <= q < MAX_PARTITIONS && 0 <= j < self.partitions@[q].objects@.len()
            implies #[trigger] self.forward_ok(q, j) by {
            assert(old.forward_ok(q, j));
            let f = self.obj(q, j).forward as int;
            if f != self.address_of(q, j) {
                old.lemma_object_address(f);
            }
        }
    }

    /// The heap is `old` with objects possibly added at the end of partitions
    /// and the allocation partition possibly changed.
    pub open spec fn extends(&self, old: &PartitionedHeap) -> bool {
        &&& self.base == old.base
        &&& self.partitions@.len() == old.partitions@.len()
        &&& forall|q: int| 0 <= q < self.partitions@.len() ==> {
            &&& (#[trigger] self.partitions@[q]).objects@.len() >= old.partitions@[q].objects@.len()
            &&& self.partitions@[q].to_be_evacuated == old.partitions@[q].to_be_evacuated
        }
        &&& forall|q: int, j: int| 0 <= q < self.partitions@.len() && 0 <= j < old.partitions@[q].objects@.len()
            ==> #[trigger] self.obj(q, j) == old.obj(q, j)
    }

    proof fn lemma_switch_allocation(&self, old: &PartitionedHeap)
        requires
            old.wf(),
            self.partitions == old.partitions,
            self.base == old.base,
            self.allocation_index < MAX_PARTITIONS,
            !self.partitions@[self.allocation_index as int].to_be_evacuated,
        ensures
            self.wf(),
    {
        assert forall|q: int| 0 <= q < MAX_PARTITIONS implies #[trigger] self.partition_ok(q) by {
            assert(old.partition_ok(q));
        }
        assert forall|q: int, j: int| 0 <= q < MAX_PARTITIONS && 0 <= j < self.partitions@[q].objects@.len()
            implies #[trigger] self.forward_ok(q, j) by {
            assert(old.forward_ok(q, j));
        }
    }

    /// A partition that holds no object and is not being evacuated.
    pub open spec fn is_free_partition(&self, p: int) -> bool {
        self.partitions@[p].objects@.len() == 0 && !self.partitions@[p].to_be_evacuated
    }

    /// An object of `size` words fits into partition `p`.
    pub open spec fn fits(&self, p: int, size: int) -> bool {
        &&& self.partitions@[p].objects@.len() < PARTITION_SLOTS
        &&& self.partitions@[p].occupied + size <= PARTITION_WORDS
    }

    pub open spec fn can_allocate(&self, size: int) -> bool {
        self.fits(self.allocation_index as int, size)
            || exists|p: int| 0 <= p < MAX_PARTITIONS && #[trigger] self.is_free_partition(p)
    }

    /// The first free partition, if any.
    pub fn find_free_partition(&self) -> (r: Option<usize>)
        requires
            self.wf(),
        ensures
            r matches Some(p) ==> p < MAX_PARTITIONS && self.is_free_partition(p as int),
            r.is_none() ==> forall|p: int| 0 <= p < MAX_PARTITIONS ==> !#[trigger] self.is_free_partition(p),
    {
        let mut p: usize = 0;
        while p < MAX_PARTITIONS
            invariant
                p <= MAX_PARTITIONS,
                self.partitions@.len() == MAX_PARTITIONS,
                forall|q: int| 0 <= q < p ==> !#[trigger] self.is_free_partition(q),
            decreases MAX_PARTITIONS - p,
        {
            if self.partitions[p].objects.len() == 0 && !self.partitions[p].to_be_evacuated {
                return Some(p);
            }
            p = p + 1;
        }
        None
    }

    /// Allocate an object with `tag` and `fields`, unmarked and its own copy.
    /// It goes into the allocation partition, or, where it does not fit there,
    /// into a free partition that becomes the allocation partition. `None`
    /// when neither exists; the heap is then unchanged.
    pub fn allocate(&mut self, tag: u32, fields: Vec<Value>) -> (r: Option<Value>)
        requires
            old(self).wf(),
            fields@.len() + HEADER_WORDS <= PARTITION_WORDS,
        ensures
            final(self).wf(),
            r.is_some() == old(self).can_allocate(fields@.len() + HEADER_WORDS),
            r.is_none() ==> *final(self) == *old(self),
            r matches Some(v) ==> {
                let p = final(self).partition_of(v.address());
                let k = final(self).slot_of(v.address());
                &&& final(self).is_heap_pointer(v)
                &&& final(self).extends(old(self))
                &&& p == final(self).allocation_index
                &&& k == old(self).partitions@[p].objects@.len()
                &&& final(self).partitions@[p].objects@.len() == k + 1
                &&& forall|q: int| 0 <= q < MAX_PARTITIONS && q != p ==>
                    (#[trigger] final(self).partitions@[q]).objects@.len() == old(self).partitions@[q].objects@.len()
                &&& final(self).target(v).tag == tag
                &&& !final(self).target(v).marked
                &&& final(self).target(v).forward == v.address()
                &&& final(self).target(v).fields@ == fields@
            },
    {
        let size = HEADER_WORDS + fields.len();
        let current = self.allocation_index;
        proof {
            assert(self.partition_ok(current as int));
        }
        if !(self.partitions[current].objects.len() < PARTITION_SLOTS
            && self.partitions[current].occupied <= PARTITION_WORDS - size) {
            match self.find_free_partition() {
                None => {
                    return None;
                },
                Some(free) => {
                    self.allocation_index = free;
                    proof {
                        self.lemma_switch_allocation(old(self));
                        assert(self.partition_ok(free as int));
                        assert(self.partitions@[free as int].objects@ =~= Seq::<Object>::empty());
                    }
                },
            }
        }
        let p = self.allocation_index;
        let k = self.partitions[p].objects.len();
        proof {
            assert(self.partition_ok(p as int));
            lemma_slot_address(self.base as int, p as int, k as int);
            assert(p * PARTITION_SLOTS + k < MAX_PARTITIONS * PARTITION_SLOTS) by (nonlinear_arith)
                requires
                    p < MAX_PARTITIONS,
                    k < PARTITION_SLOTS,
            ;
        }
        let address = self.base + (p * PARTITION_SLOTS + k) * WORD_SIZE;
        let ghost mid = *self;
        let ghost old_objects = self.partitions@[p as int].objects@;
        self.partitions[p].objects.push(Object { tag, marked: false, forward: address, fields });
        self.partitions[p].occupied = self.partitions[p].occupied + size;
        let v = Value::from_ptr(address);
        proof {
            let new_objects = self.partitions@[p as int].objects@;
            assert(new_objects.drop_last() =~= old_objects);
            assert(self.partition_ok(p as int));
            lemma_slot_address(self.base as int, p as int, k as int);
            assert forall|q: int| 0 <= q < MAX_PARTITIONS implies #[trigger] self.partition_ok(q) by {
                assert(mid.partition_ok(q));
            }
            assert forall|q: int, j: int| 0 <= q < MAX_PARTITIONS && 0 <= j < self.partitions@[q].objects@.len()
                implies #[trigger] self.forward_ok(q, j) by {
                if q != p || j != k {
                    assert(mid.forward_ok(q, j));
                    assert(self.obj(q, j) == mid.obj(q, j));
                    let f = self.obj(q, j).forward as int;
                    if f != self.address_of(q, j) {
                        mid.lemma_object_address(f);
                    }
                }
            }
            assert(self.is_object_address(address as int));
        }
        Some(v)
    }

    /// Open a free partition for allocation, if there is one.
    pub fn start_new_allocation_partition(&mut self)
        requires
            old(self).wf(),
        ensures
            final(self).wf(),
            final(self).extends(old(self)),
            final(self).partitions == old(self).partitions,
            (exists|p: int| 0 <= p < MAX_PARTITIONS && #[trigger] old(self).is_free_partition(p))
                ==> final(self).is_free_partition(final(self).allocation_index as int),
    {
        match self.find_free_partition() {
            Some(p) => {
                self.allocation_index = p;
                proof {
                    self.lemma_switch_allocation(old(self));
                }
            },
            None => {},
        }
    }

    /// The rule for evacuation: at most half of the partition's words are
    /// marked.
    pub open spec fn worth_evacuating(part: Partition) -> bool {
        part.objects@.len() > 0 && 2 * part.marked_size <= part.occupied
    }

    /// No partition is being evacuated.
    pub open spec fn no_evacuation(&self) -> bool {
        forall|p: int| 0 <= p < self.partitions@.len() ==> !(#[trigger] self.partitions@[p]).to_be_evacuated
    }

    /// Choose the partitions to evacuate: all but the allocation partition
    /// that are worth evacuating.
    pub fn plan_evacuations(&mut self)
        requires
            old(self).wf(),
            old(self).no_evacuation(),
        ensures
            final(self).wf(),
            final(self).base == old(self).base,
            final(self).allocation_index == old(self).allocation_index,
            final(self).partitions@.len() == old(self).partitions@.len(),
            forall|p: int| 0 <= p < MAX_PARTITIONS ==> {
                &&& (#[trigger] final(self).partitions@[p]).objects == old(self).partitions@[p].objects
                &&& final(self).partitions@[p].occupied == old(self).partitions@[p].occupied
                &&& final(self).partitions@[p].marked_size == old(self).partitions@[p].marked_size
                &&& final(self).partitions@[p].to_be_evacuated == (p != old(self).allocation_index
                    && Self::worth_evacuating(old(self).partitions@[p]))
            },
    {
        let mut p: usize = 0;
        while p < MAX_PARTITIONS
            invariant
                p <= MAX_PARTITIONS,
                self.base == old(self).base,
                self.allocation_index == old(self).allocation_index,
                self.partitions@.len() == MAX_PARTITIONS,
                forall|q: int| 0 <= q < MAX_PARTITIONS ==> {
                    &&& (#[trigger] self.partitions@[q]).objects == old(self).partitions@[q].objects
                    &&& self.partitions@[q].occupied == old(self).partitions@[q].occupied
                    &&& self.partitions@[q].marked_size == old(self).partitions@[q].marked_size
                    &&& self.partitions@[q].index == old(self).partitions@[q].index
                    &&& self.partitions@[q].to_be_evacuated == (q < p && q != old(self).allocation_index
                        && Self::worth_evacuating(old(self).partitions@[q]))
                },
            decreases MAX_PARTITIONS - p,
        {
            let evacuate = p != self.allocation_index && self.partitions[p].objects.len() > 0
                && self.partitions[p].marked_size <= self.partitions[p].occupied / 2;
            self.partitions[p].to_be_evacuated = evacuate;
            p = p + 1;
        }
        proof {
            assert forall|q: int| 0 <= q < MAX_PARTITIONS implies #[trigger] self.partition_ok(q) by {
                assert(old(self).partition_ok(q));
            }
            assert forall|q: int, j: int| 0 <= q < MAX_PARTITIONS && 0 <= j < self.partitions@[q].objects@.len()
                implies #[trigger] self.forward_ok(q, j) by {
                assert(old(self).forward_ok(q, j));
                assert(!old(self).partitions@[q].to_be_evacuated);
            }
        }
    }

    /// Reclaim every partition that was evacuated: it loses its objects and
    /// becomes free.
    pub fn free_evacuated_partitions(&mut self)
        requires
            old(self).wf(),
        ensures
            final(self).wf(),
            final(self).no_evacuation(),
            final(self).base == old(self).base,
            final(self).allocation_index == old(self).allocation_index,
            final(self).partitions@.len() == old(self).partitions@.len(),
            forall|p: int| 0 <= p < MAX_PARTITIONS ==> if old(self).partitions@[p].to_be_evacuated {
                (#[trigger] final(self).partitions@[p]).objects@.len() == 0
            } else {
                &&& final(self).partitions@[p].objects == old(self).partitions@[p].objects
                &&& final(self).partitions@[p].marked_size == old(self).partitions@[p].marked_size
            },
    {
        let mut p: usize = 0;
        while p < MAX_PARTITIONS
            invariant
                p <= MAX_PARTITIONS,
                self.base == old(self).base,
                self.allocation_index == old(self).allocation_index,
                self.partitions@.len() == MAX_PARTITIONS,
                forall|q: int| 0 <= q < MAX_PARTITIONS ==> {
                    &&& (#[trigger] self.partitions@[q]).index == old(self).partitions@[q].index
                    &&& if q < p && old(self).partitions@[q].to_be_evacuated {
                        &&& self.partitions@[q].objects@.len() == 0
                        &&& self.partitions@[q].occupied == 0
                        &&& self.partitions@[q].marked_size == 0
                        &&& !self.partitions@[q].to_be_evacuated
                    } else {
                        &&& self.partitions@[q].objects == old(self).partitions@[q].objects
                        &&& self.partitions@[q].occupied == old(self).partitions@[q].occupied
                        &&& self.partitions@[q].marked_size == old(self).partitions@[q].marked_size
                        &&& self.partitions@[q].to_be_evacuated == old(self).partitions@[q].to_be_evacuated
                    }
                },
            decreases MAX_PARTITIONS - p,
        {
            if self.partitions[p].to_be_evacuated {
                self.partitions[p].objects = Vec::new();
                self.partitions[p].occupied = 0;
                self.partitions[p].marked_size = 0;
                self.partitions[p].to_be_evacuated = false;
            }
            p = p + 1;
        }
        proof {
            assert forall|q: int| 0 <= q < MAX_PARTITIONS implies #[trigger] self.partition_ok(q) by {
                assert(old(self).partition_ok(q));
                if old(self).partitions@[q].to_be_evacuated {
                    assert(self.partitions@[q].objects@ =~= Seq::<Object>::empty());
                }
            }
            assert forall|q: int, j: int| 0 <= q < MAX_PARTITIONS && 0 <= j < self.partitions@[q].objects@.len()
                implies #[trigger] self.forward_ok(q, j) by {
                assert(old(self).forward_ok(q, j));
            }
        }
    }

    /// Words occupied by objects in the first `n` partitions.
    pub open spec fn occupied_in(&self, n: int) -> int
        decreases n,
    {
        if n <= 0 {
            0
        } else {
            self.occupied_in(n - 1) + self.partitions@[n - 1].occupied
        }
    }

    /// Words occupied by all objects of the heap.
    pub open spec fn occupation_spec(&self) -> int {
        self.occupied_in(MAX_PARTITIONS as int)
    }

    /// Words occupied by all objects of the heap.
    pub fn occupation(&self) -> (r: usize)
        requires
            self.wf(),
        ensures
            r == self.occupation_spec(),
    {
        let mut total: usize = 0;
        let mut p: usize = 0;
        while p < MAX_PARTITIONS
            invariant
                p <= MAX_PARTITIONS,
                self.wf(),
                total == self.occupied_in(p as int),
                total <= p * PARTITION_WORDS,
            decreases MAX_PARTITIONS - p,
        {
            proof {
                assert(self.partition_ok(p as int));
            }
            total = total + self.partitions[p].occupied;
            p = p + 1;
        }
        total
    }

    /// The addresses of the slots of partition `p`, from its base to its end.
    pub fn partition_range(&self, p: usize) -> (r: Range)
        requires
            self.wf(),
            p < MAX_PARTITIONS,
        ensures
            r.lower_spec() == self.address_of(p as int, 0),
            r.upper_spec() == self.address_of(p as int + 1, 0),
    {
        proof {
            assert((p + 1) * PARTITION_SLOTS <= MAX_PARTITIONS * PARTITION_SLOTS) by (nonlinear_arith)
                requires
                    p < MAX_PARTITIONS,
            ;
        }
        let lower = self.base + p * PARTITION_SLOTS * WORD_SIZE;
        let upper = self.base + (p + 1) * PARTITION_SLOTS * WORD_SIZE;
        Range::new(lower, upper)
    }
}

} // verus!

//! Dynamic heap of the object-table variant.
//!
//! The heap lies directly above the object table: blocks are laid out one
//! after the other from the heap base (the table end) to the heap pointer.
//! A block is an object, known by its id, or a filler. When the table runs
//! out of free ids it grows into the heap: the first block is consumed, and
//! if it is an object, it is first moved to the top of the heap.
use vstd::prelude::*;
use crate::value::{Value, WORD_SIZE};
use crate::object_table::{ObjectTable, ADDRESS_LIMIT, id_at};
use crate::remembered_set::RememberedSet;

verus! {

/// A block of the dynamic heap.
#[derive(Clone, Copy, Debug, PartialEq, Eq, Structural)]
pub struct Block {
    /// Address of the block.
    pub address: usize,
    /// Size of the block in words.
    pub size: usize,
    /// Id of the object in the block, or `None` for a filler.
    pub object_id: Option<Value>,
}

/// Dynamic heap with an object table.
pub struct ObjectHeap {
    table: ObjectTable,
    blocks: Vec<Block>,
    heap_pointer: usize,
    last_heap_pointer: usize,
    young_remembered_set: RememberedSet,
}

impl ObjectHeap {
    pub closed spec fn table(&self) -> ObjectTable {
        self.table
    }

    /// The blocks in address order.
    pub closed spec fn blocks(&self) -> Seq<Block> {
        self.blocks@
    }

    /// Start of the dynamic heap.
    pub open spec fn heap_base_spec(&self) -> int {
        self.table().end_spec()
    }

    pub closed spec fn heap_pointer_spec(&self) -> int {
        self.heap_pointer as int
    }

    pub closed spec fn last_heap_pointer_spec(&self) -> int {
        self.last_heap_pointer as int
    }

    /// Ids put into the young generation's remembered set.
    pub closed spec fn remembered(&self) -> Set<Value> {
        self.young_remembered_set@
    }

    /// End address of the block with index `i`.
    pub open spec fn block_end(b: Block) -> int {
        b.address + b.size * WORD_SIZE
    }

    /// The objects of the heap: each id with its block's address and size.
    pub open spec fn objects(&self) -> Map<Value, (usize, usize)> {
        Map::new(
            |id: Value| exists|i: int| 0 <= i < self.blocks().len() && #[trigger] self.blocks()[i].object_id == Some(id),
            |id: Value| {
                let i = choose|i: int| 0 <= i < self.blocks().len() && #[trigger] self.blocks()[i].object_id == Some(id);
                (self.blocks()[i].address, self.blocks()[i].size)
            },
        )
    }

    pub closed spec fn wf(&self) -> bool {
        &&& self.table.wf()
        &&& self.young_remembered_set.wf()
        &&& self.heap_pointer <= ADDRESS_LIMIT
        &&& self.last_heap_pointer <= self.heap_pointer
        &&& self.table.end_spec() <= self.heap_pointer
        &&& self.blocks@.len() == 0 ==> self.heap_pointer == self.table.end_spec()
        &&& self.blocks@.len() > 0 ==> {
            &&& self.blocks@[0].address == self.table.end_spec()
            &&& Self::block_end(self.blocks@.last()) == self.heap_pointer
        }
        &&& forall|i: int| 0 <= i < self.blocks@.len() ==> #[trigger] self.blocks@[i].size > 0
        &&& forall|i: int| 0 <= i < self.blocks@.len() - 1 ==> #[trigger] self.blocks@[i + 1].address
            == Self::block_end(self.blocks@[i])
        &&& forall|i: int| 0 <= i < self.blocks@.len() && (#[trigger] self.blocks@[i]).object_id.is_some() ==> {
            &&& self.table@.contains_key(self.blocks@[i].object_id.unwrap())
            &&& self.table@[self.blocks@[i].object_id.unwrap()] == self.blocks@[i].address
        }
        &&& forall|id: Value| #[trigger] self.table@.contains_key(id) ==> exists|i: int|
            0 <= i < self.blocks@.len() && #[trigger] self.blocks@[i].object_id == Some(id)
    }

    /// Block addresses increase with their index.
    proof fn lemma_addresses_increase(&self, i: int, j: int)
        requires
            self.wf(),
            0 <= i < j < self.blocks@.len(),
        ensures
            Self::block_end(self.blocks@[i]) <= self.blocks@[j].address,
        decreases j - i,
    {
        assert(self.blocks@[(j - 1) + 1].address == Self::block_end(self.blocks@[j - 1]));
        assert(self.blocks@[j - 1].size > 0);
        if j > i + 1 {
            self.lemma_addresses_increase(i, j - 1);
        }
    }

    /// A full table means that some object lies in the heap.
    proof fn lemma_full_table_has_blocks(&self)
        requires
            self.wf(),
            self.table.free_count() == 0,
        ensures
            self.blocks@.len() > 0,
    {
        self.table.lemma_wf_bounds();
        self.table.lemma_id_index(0);
        let id = id_at(self.table.base_spec(), 0);
        assert(!self.table.free_stack().contains(0));
        assert(self.table@.contains_key(id));
    }

    /// An empty heap above a fresh table at `table_base` with `table_length`
    /// free ids.
    pub fn new(table_base: usize, table_length: usize) -> (r: ObjectHeap)
        requires
            table_length > 0,
            table_base > 0,
            table_base % WORD_SIZE == 0,
            table_base + table_length * WORD_SIZE <= ADDRESS_LIMIT,
        ensures
            r.wf(),
            r.table()@ == Map::<Value, usize>::empty(),
            r.table().len_spec() == table_length,
            r.table().base_spec() == table_base,
            r.blocks() == Seq::<Block>::empty(),
            r.heap_pointer_spec() == r.heap_base_spec(),
            r.last_heap_pointer_spec() == r.heap_base_spec(),
            r.remembered() == Set::<Value>::empty(),
    {
        let table = ObjectTable::new(table_base, table_length);
        let end = table.end();
        ObjectHeap {
            table,
            blocks: Vec::new(),
            heap_pointer: end,
            last_heap_pointer: end,
            young_remembered_set: RememberedSet::new(),
        }
    }

    /// The object table.
    pub fn object_table(&self) -> (r: &ObjectTable)
        ensures
            *r == self.table(),
            self.wf() ==> r.wf(),
            self.wf() ==> r.end_spec() == self.heap_base_spec(),
    {
        &self.table
    }

    /// Start of the dynamic heap, equal to the table end.
    pub fn get_heap_base(&self) -> (r: usize)
        requires
            self.wf(),
        ensures
            r == self.heap_base_spec(),
    {
        self.table.end()
    }

    pub fn get_heap_pointer(&self) -> (r: usize)
        ensures
            r == self.heap_pointer_spec(),
    {
        self.heap_pointer
    }

    pub fn get_last_heap_pointer(&self) -> (r: usize)
        ensures
            r == self.last_heap_pointer_spec(),
    {
        self.last_heap_pointer
    }

    /// Start the young generation at the heap pointer.
    pub fn set_last_heap_pointer_to_top(&mut self)
        requires
            old(self).wf(),
        ensures
            final(self).wf(),
            final(self).table() == old(self).table(),
            final(self).blocks() == old(self).blocks(),
            final(self).heap_pointer_spec() == old(self).heap_pointer_spec(),
            final(self).last_heap_pointer_spec() == old(self).heap_pointer_spec(),
            final(self).remembered() == old(self).remembered(),
    {
        self.last_heap_pointer = self.heap_pointer;
    }

    /// Number of blocks in the heap.
    pub fn block_count(&self) -> (r: usize)
        ensures
            r == self.blocks().len(),
    {
        self.blocks.len()
    }

    /// The block with index `index`.
    pub fn block(&self, index: usize) -> (r: Block)
        requires
            index < self.blocks().len(),
        ensures
            r == self.blocks()[index as int],
    {
        self.blocks[index]
    }

    /// Whether the young generation's remembered set holds `value`.
    pub fn is_remembered(&self, value: Value) -> (r: bool)
        requires
            self.wf(),
        ensures
            r == self.remembered().contains(value),
    {
        self.young_remembered_set.contains(value)
    }

    /// The block that table growth consumes: the first one.
    pub open spec fn growth_cost(&self) -> int {
        let first = self.blocks()[0];
        if first.object_id.is_some() {
            first.size * WORD_SIZE
        } else {
            0
        }
    }

    /// Allocating `size` words succeeds: the heap pointer stays within the
    /// address limit, also after the table, if full, has grown.
    pub open spec fn can_allocate(&self, size: int) -> bool {
        if self.table().free_count() > 0 {
            self.heap_pointer_spec() + size * WORD_SIZE <= ADDRESS_LIMIT
        } else {
            self.heap_pointer_spec() + self.growth_cost() + size * WORD_SIZE <= ADDRESS_LIMIT
        }
    }

    proof fn lemma_first_block_within(&self)
        requires
            self.wf(),
            self.blocks@.len() > 0,
        ensures
            Self::block_end(self.blocks@[0]) <= self.heap_pointer,
            self.blocks@.len() > 1 ==> self.blocks@[1].address == Self::block_end(self.blocks@[0]),
            self.blocks@.len() == 1 ==> self.heap_pointer == Self::block_end(self.blocks@[0]),
    {
        let n = self.blocks@.len() as int;
        if n > 1 {
            self.lemma_addresses_increase(0, n - 1);
            assert(self.blocks@[0int + 1].address == Self::block_end(self.blocks@[0]));
            assert(self.blocks@[n - 1].size > 0);
        }
    }

    /// Object ids of different blocks differ.
    proof fn lemma_ids_distinct(&self, i: int, j: int)
        requires
            self.wf(),
            0 <= i < j < self.blocks@.len(),
            self.blocks@[i].object_id.is_some(),
        ensures
            self.blocks@[j].object_id != self.blocks@[i].object_id,
    {
        self.lemma_addresses_increase(i, j);
        assert(self.blocks@[i].size > 0);
    }

    /// Extend the full object table by the first heap block. An object there
    /// moves to the top of the heap; if it left the old generation, its id is
    /// remembered for the young generation. A filler is consumed as it is.
    pub fn grow_table(&mut self)
        requires
            old(self).wf(),
            old(self).table().free_count() == 0,
            old(self).heap_pointer_spec() + old(self).growth_cost() <= ADDRESS_LIMIT,
        ensures
            final(self).wf(),
            old(self).blocks().len() > 0,
            final(self).table().len_spec() == old(self).table().len_spec() + old(self).blocks()[0].size,
            final(self).table().free_count() == old(self).blocks()[0].size,
            final(self).table().base_spec() == old(self).table().base_spec(),
            final(self).heap_pointer_spec() == old(self).heap_pointer_spec() + old(self).growth_cost(),
            match old(self).blocks()[0].object_id {
                Some(id) => {
                    &&& old(self).table()@.contains_key(id)
                    &&& final(self).table()@.dom() == old(self).table()@.dom()
                    &&& final(self).blocks() == old(self).blocks().drop_first().push(Block {
                        address: old(self).heap_pointer_spec() as usize,
                        size: old(self).blocks()[0].size,
                        object_id: Some(id),
                    })
                    &&& final(self).table()@ == old(self).table()@.insert(id, old(self).heap_pointer_spec() as usize)
                    &&& final(self).remembered() == if old(self).blocks()[0].address < old(self).last_heap_pointer_spec() {
                        old(self).remembered().insert(id)
                    } else {
                        old(self).remembered()
                    }
                },
                None => {
                    &&& final(self).blocks() == old(self).blocks().drop_first()
                    &&& final(self).table()@ == old(self).table()@
                    &&& final(self).remembered() == old(self).remembered()
                },
            },
            final(self).heap_base_spec() == old(self).heap_base_spec() + old(self).blocks()[0].size * WORD_SIZE,
            final(self).heap_base_spec() > old(self).heap_base_spec(),
            final(self).table().free_stack() == Seq::new(old(self).blocks()[0].size as nat, |i: int| old(self).table().len_spec() + i),
    {
        proof {
            self.lemma_full_table_has_blocks();
            self.lemma_first_block_within();
        }
        let ghost old_blocks = self.blocks@;
        let first = self.blocks.remove(0);
        let size = first.size;
        let ghost mid_blocks = self.blocks@;
        assert(mid_blocks =~= old_blocks.subrange(1, old_blocks.len() as int));
        match first.object_id {
            Some(object_id) => {
                let old_address = first.address;
                let new_address = self.heap_pointer;
                self.table.move_object(object_id, new_address);
                self.blocks.push(Block { address: new_address, size, object_id: Some(object_id) });
                self.heap_pointer = new_address + size * WORD_SIZE;
                if old_address < self.last_heap_pointer {
                    self.young_remembered_set.insert(object_id);
                }
            },
            None => {},
        }
        self.table.grow(size);
        let heap_base = self.table.end();
        if self.last_heap_pointer < heap_base {
            self.last_heap_pointer = heap_base;
        }
        proof {
            let nb = self.blocks@;
            assert forall|i: int| 0 <= i < mid_blocks.len() implies #[trigger] nb[i] == old_blocks[i + 1] by {}
            assert forall|i: int| 0 <= i < nb.len() implies #[trigger] nb[i].size > 0 by {
                if i < mid_blocks.len() {
                    assert(old_blocks[i + 1].size > 0);
                }
            }
            assert forall|i: int| 0 <= i < nb.len() - 1 implies #[trigger] nb[i + 1].address == Self::block_end(nb[i]) by {
                if i + 1 < mid_blocks.len() {
                    assert(old_blocks[(i + 1) + 1].address == Self::block_end(old_blocks[i + 1]));
                } else {
                    assert(nb[i] == old_blocks.last());
                }
            }
            if nb.len() > 0 {
                if mid_blocks.len() > 0 {
                    assert(nb[0] == old_blocks[1]);
                }
            }
            assert forall|i: int| 0 <= i < nb.len() && (#[trigger] nb[i]).object_id.is_some() implies {
                &&& self.table@.contains_key(nb[i].object_id.unwrap())
                &&& self.table@[nb[i].object_id.unwrap()] == nb[i].address
            } by {
                if i < mid_blocks.len() {
                    assert(old_blocks[i + 1].object_id.is_some());
                    if first.object_id.is_some() {
                        old(self).lemma_ids_distinct(0, i + 1);
                    }
                }
            }
            assert forall|id: Value| #[trigger] self.table@.contains_key(id) implies exists|i: int|
                0 <= i < nb.len() && #[trigger] nb[i].object_id == Some(id) by {
                if first.object_id == Some(id) {
                    assert(nb[nb.len() - 1].object_id == Some(id));
                } else {
                    assert(old(self).table@.contains_key(id));
                    let j = choose|j: int| 0 <= j < old_blocks.len() && #[trigger] old_blocks[j].object_id == Some(id);
                    assert(j != 0);
                    assert(nb[j - 1].object_id == Some(id));
                }
            }
        }
    }

    /// Allocate an object of `size` words at the top of the heap and give it
    /// a fresh id, growing the table first if it is full. `None` when the
    /// heap would pass the address limit; the heap is then unchanged.
    pub fn allocate(&mut self, size: usize) -> (r: Option<Value>)
        requires
            old(self).wf(),
            size > 0,
        ensures
            final(self).wf(),
            r.is_some() == old(self).can_allocate(size as int),
            r.is_none() ==> *final(self) == *old(self),
            r matches Some(id) ==> {
                &&& !old(self).table()@.contains_key(id)
                &&& final(self).table().is_table_id(id)
                &&& final(self).table()@.dom() == old(self).table()@.dom().insert(id)
                &&& final(self).table()@[id] == final(self).heap_pointer_spec() - size * WORD_SIZE
                &&& final(self).blocks().last() == (Block {
                    address: final(self).table()@[id],
                    size,
                    object_id: Some(id),
                })
                &&& final(self).table().len_spec() >= old(self).table().len_spec()
                &&& final(self).table().base_spec() == old(self).table().base_spec()
            },
    {
        if !self.table.has_free_id() {
            proof {
                self.lemma_full_table_has_blocks();
            }
            let first = self.blocks[0];
            let cost: usize = match first.object_id {
                Some(_) => first.size,
                None => 0,
            };
            if cost > (ADDRESS_LIMIT - self.heap_pointer) / WORD_SIZE
                || size > (ADDRESS_LIMIT - self.heap_pointer - cost * WORD_SIZE) / WORD_SIZE {
                return None;
            }
            self.grow_table();
        } else if size > (ADDRESS_LIMIT - self.heap_pointer) / WORD_SIZE {
            return None;
        }
        let ghost before = *self;
        proof {
            self.table.lemma_wf_bounds();
        }
        let address = self.heap_pointer;
        let object_id = self.table.new_object_id(address);
        self.blocks.push(Block { address, size, object_id: Some(object_id) });
        self.heap_pointer = address + size * WORD_SIZE;
        proof {
            let nb = self.blocks@;
            let ob = before.blocks@;
            assert(self.table@.dom() =~= before.table@.dom().insert(object_id));
            assert forall|i: int| 0 <= i < nb.len() implies #[trigger] nb[i].size > 0 by {
                if i < ob.len() {
                    assert(ob[i].size > 0);
                }
            }
            assert forall|i: int| 0 <= i < nb.len() - 1 implies #[trigger] nb[i + 1].address == Self::block_end(nb[i]) by {
                if i + 1 < ob.len() {
                    assert(ob[i + 1].address == Self::block_end(ob[i]));
                }
            }
            assert forall|i: int| 0 <= i < nb.len() && (#[trigger] nb[i]).object_id.is_some() implies {
                &&& self.table@.contains_key(nb[i].object_id.unwrap())
                &&& self.table@[nb[i].object_id.unwrap()] == nb[i].address
            } by {
                if i < ob.len() {
                    assert(ob[i].object_id.is_some());
                    assert(before.table@.contains_key(ob[i].object_id.unwrap()));
                }
            }
            assert forall|id: Value| #[trigger] self.table@.contains_key(id) implies exists|i: int|
                0 <= i < nb.len() && #[trigger] nb[i].object_id == Some(id) by {
                if id == object_id {
                    assert(nb[nb.len() - 1].object_id == Some(id));
                } else {
                    assert(before.table@.contains_key(id));
                    let j = choose|j: int| 0 <= j < ob.len() && #[trigger] ob[j].object_id == Some(id);
                    assert(nb[j].object_id == Some(id));
                }
            }
        }
        Some(object_id)
    }

    /// Discard an object: its block becomes a filler and its id is free again.
    pub fn free_object(&mut self, object_id: Value)
        requires
            old(self).wf(),
            old(self).table()@.contains_key(object_id),
        ensures
            final(self).wf(),
            final(self).table()@ == old(self).table()@.remove(object_id),
            final(self).table().len_spec() == old(self).table().len_spec(),
            final(self).heap_pointer_spec() == old(self).heap_pointer_spec(),
            final(self).blocks().len() == old(self).blocks().len(),
    {
        let ghost ob = self.blocks@;
        let mut i: usize = 0;
        while i < self.blocks.len()
            invariant
                self.wf(),
                self.blocks@ == ob,
                *self == *old(self),
                i <= ob.len(),
                forall|j: int| 0 <= j < i ==> ob[j].object_id != Some(object_id),
            decreases ob.len() - i,
        {
            if self.blocks[i].object_id == Some(object_id) {
                let block = self.blocks[i];
                self.blocks.set(i, Block { address: block.address, size: block.size, object_id: None });
                self.table.free_object_id(object_id);
                proof {
                    let nb = self.blocks@;
                    assert forall|k: int| 0 <= k < nb.len() implies #[trigger] nb[k].size > 0 by {
                        assert(ob[k].size > 0);
                    }
                    assert forall|k: int| 0 <= k < nb.len() - 1 implies #[trigger] nb[k + 1].address == Self::block_end(nb[k]) by {
                        assert(ob[k + 1].address == Self::block_end(ob[k]));
                    }
                    assert forall|k: int| 0 <= k < nb.len() && (#[trigger] nb[k]).object_id.is_some() implies {
                        &&& self.table@.contains_key(nb[k].object_id.unwrap())
                        &&& self.table@[nb[k].object_id.unwrap()] == nb[k].address
                    } by {
                        assert(ob[k].object_id.is_some());
                        if k < i {
                            old(self).lemma_ids_distinct(k, i as int);
                        } else if k > i {
                            old(self).lemma_ids_distinct(i as int, k);
                        }
                    }
                    assert forall|id: Value| #[trigger] self.table@.contains_key(id) implies exists|k: int|
                        0 <= k < nb.len() && #[trigger] nb[k].object_id == Some(id) by {
                        assert(old(self).table@.contains_key(id));
                        let j = choose|j: int| 0 <= j < ob.len() && #[trigger] ob[j].object_id == Some(id);
                        assert(nb[j].object_id == Some(id));
                    }
                }
                return;
            }
            i = i + 1;
        }
        proof {
            assert(false);
        }
    }
}

} // verus!

//! Central object table: maps object ids to object addresses.
//!
//! The table is an array of words at a fixed base address. An object id is
//! the skewed address of one array element, and that element holds the
//! address of the object. Moving an object only rewrites its element.
//!
//! Free ids form a stack threaded through the array: the top is `free`, the
//! element of a free id holds the raw value of the next free id, and the
//! bottom is marked by the null object id.
use vstd::prelude::*;
use crate::value::{Value, WORD_SIZE, skew};
use crate::range::Range;

verus! {

/// Raw word of the null object id, a scalar that no table element can denote.
pub const NULL_OBJECT_ID_RAW: usize = 0;

/// The null object id, which also marks the bottom of the free id stack.
pub fn null_object_id() -> (r: Value)
    ensures
        r.raw == NULL_OBJECT_ID_RAW,
{
    Value { raw: NULL_OBJECT_ID_RAW }
}

/// Highest address that the table may reach.
pub const ADDRESS_LIMIT: usize = 0x7fff_fff0;

/// Central object table.
pub struct ObjectTable {
    /// Bottom of the table array.
    base: usize,
    /// Table elements: an object address, or the raw next free id.
    entries: Vec<usize>,
    /// Top of the free id stack.
    free: Value,
    /// Indices on the free id stack, top first.
    stack: Ghost<Seq<int>>,
}

/// The id of the element with index `index` in a table at `base`.
pub open spec fn id_at(base: int, index: int) -> Value {
    Value { raw: skew(base + index * WORD_SIZE) as usize }
}

impl ObjectTable {
    pub closed spec fn base_spec(&self) -> int {
        self.base as int
    }

    /// Number of table elements.
    pub closed spec fn len_spec(&self) -> int {
        self.entries@.len() as int
    }

    /// End address of the table.
    pub open spec fn end_spec(&self) -> int {
        self.base_spec() + self.len_spec() * WORD_SIZE
    }

    /// `id` denotes an element of the table.
    pub open spec fn is_table_id(&self, id: Value) -> bool {
        &&& id.is_ptr_spec()
        &&& self.base_spec() <= id.address() < self.end_spec()
        &&& (id.address() - self.base_spec()) % (WORD_SIZE as int) == 0
    }

    /// Index of the element that `id` denotes.
    pub open spec fn index_of(&self, id: Value) -> int {
        (id.address() - self.base_spec()) / (WORD_SIZE as int)
    }

    /// Indices of the free ids, top of the stack first.
    pub closed spec fn free_stack(&self) -> Seq<int> {
        self.stack@
    }

    /// Number of free ids.
    pub open spec fn free_count(&self) -> int {
        self.free_stack().len() as int
    }

    /// The id is handed out and maps to an address.
    pub open spec fn is_allocated(&self, id: Value) -> bool {
        self.is_table_id(id) && !self.free_stack().contains(self.index_of(id))
    }

    /// Address recorded for an element.
    pub closed spec fn entry(&self, index: int) -> usize {
        self.entries@[index]
    }

    /// The allocated ids and the addresses they map to.
    pub open spec fn view(&self) -> Map<Value, usize> {
        Map::new(|id: Value| self.is_allocated(id), |id: Value| self.entry(self.index_of(id)))
    }

    pub closed spec fn wf(&self) -> bool {
        &&& self.base % WORD_SIZE == 0
        &&& self.base > 0
        &&& self.entries@.len() > 0
        &&& self.base + self.entries@.len() * WORD_SIZE <= ADDRESS_LIMIT
        &&& self.stack@.no_duplicates()
        &&& forall|i: int| 0 <= i < self.stack@.len() ==> 0 <= #[trigger] self.stack@[i] < self.entries@.len()
        &&& if self.stack@.len() == 0 {
            self.free.raw == NULL_OBJECT_ID_RAW
        } else {
            self.free == id_at(self.base as int, self.stack@[0])
        }
        &&& forall|i: int| 0 <= i < self.stack@.len() ==> #[trigger] self.entries@[self.stack@[i]] == (
            if i + 1 < self.stack@.len() {
                id_at(self.base as int, self.stack@[i + 1]).raw
            } else {
                NULL_OBJECT_ID_RAW
            })
    }

    pub proof fn lemma_wf_bounds(&self)
        requires
            self.wf(),
        ensures
            self.len_spec() > 0,
            self.base_spec() > 0,
            self.base_spec() % (WORD_SIZE as int) == 0,
            self.end_spec() <= ADDRESS_LIMIT,
            self.free_count() <= self.len_spec(),
    {
        let s = self.stack@;
        let f = |i: int| 0 <= i < self.entries@.len();
        assert forall|x: int| s.to_set().contains(x) implies Set::new(f).contains(x) by {
            let j = choose|j: int| 0 <= j < s.len() && s[j] == x;
        }
        s.unique_seq_to_set();
        vstd::set_lib::lemma_int_range(0, self.entries@.len() as int);
        assert(Set::new(f) =~= vstd::set_lib::set_int_range(0, self.entries@.len() as int));
        vstd::set_lib::lemma_len_subset(s.to_set(), Set::new(f));
    }

    pub proof fn lemma_id_index(&self, index: int)
        requires
            self.wf(),
            0 <= index < self.len_spec(),
        ensures
            self.is_table_id(id_at(self.base_spec(), index)),
            self.index_of(id_at(self.base_spec(), index)) == index,
    {
        let a = self.base + index * 4;
        assert(a % 4 == 0);
        crate::value::lemma_aligned_pred_odd(a);
    }

    pub proof fn lemma_index_id(&self, id: Value)
        requires
            self.wf(),
            self.is_table_id(id),
        ensures
            0 <= self.index_of(id) < self.len_spec(),
            id_at(self.base_spec(), self.index_of(id)) == id,
    {
    }

    /// Initialise a table at `base` with `length` elements, all of them free.
    pub fn new(base: usize, length: usize) -> (r: ObjectTable)
        requires
            length > 0,
            base > 0,
            base % WORD_SIZE == 0,
            base + length * WORD_SIZE <= ADDRESS_LIMIT,
        ensures
            r.wf(),
            r.view() == Map::<Value, usize>::empty(),
            r.base_spec() == base,
            r.len_spec() == length,
            r.free_count() == length,
            r.free_stack() == Seq::new(length as nat, |i: int| i),
    {
        let mut entries: Vec<usize> = Vec::new();
        let mut i: usize = 0;
        while i < length
            invariant
                i <= length,
                entries@.len() == i,
            decreases length - i,
        {
            entries.push(0);
            i = i + 1;
        }
        let mut table = ObjectTable { base, entries, free: null_object_id(), stack: Ghost(Seq::empty()) };
        table.add_free_range(Range::new(0, length));
        proof {
            assert forall|id: Value| !table.is_allocated(id) by {
                if table.is_table_id(id) {
                    table.lemma_index_id(id);
                    assert(table.free_stack()[table.index_of(id)] == table.index_of(id));
                }
            }
            assert(table.view() =~= Map::<Value, usize>::empty());
        }
        table
    }

    /// Base address of the table.
    pub fn base(&self) -> (r: usize)
        ensures
            r == self.base_spec(),
    {
        self.base
    }

    /// Number of table elements.
    pub fn length(&self) -> (r: usize)
        ensures
            r == self.len_spec(),
    {
        self.entries.len()
    }

    /// End address of the table.
    pub fn end(&self) -> (r: usize)
        requires
            self.wf(),
        ensures
            r == self.end_spec(),
    {
        self.base + self.entries.len() * WORD_SIZE
    }

    /// Whether a free id is left.
    pub fn has_free_id(&self) -> (r: bool)
        requires
            self.wf(),
        ensures
            r == (self.free_count() > 0),
    {
        self.free.raw != NULL_OBJECT_ID_RAW
    }

    /// Whether `value` is an id of this table.
    pub fn is_object_id(&self, value: Value) -> (r: bool)
        requires
            self.wf(),
        ensures
            r == self.is_table_id(value),
    {
        if !value.is_ptr() || value.raw >= ADDRESS_LIMIT {
            return false;
        }
        let address = value.get_ptr();
        address >= self.base && address < self.end() && (address - self.base) % WORD_SIZE == 0
    }

    fn index_to_object_id(&self, index: usize) -> (r: Value)
        requires
            self.wf(),
            index < self.len_spec(),
        ensures
            r == id_at(self.base_spec(), index as int),
    {
        proof {
            crate::value::lemma_aligned_pred_odd(self.base + index * 4);
        }
        Value::from_ptr(self.base + index * WORD_SIZE)
    }

    fn element_index(&self, object_id: Value) -> (r: usize)
        requires
            self.wf(),
            self.is_table_id(object_id),
        ensures
            r == self.index_of(object_id),
            r < self.len_spec(),
    {
        proof {
            self.lemma_index_id(object_id);
        }
        (object_id.raw + 1 - self.base) / WORD_SIZE
    }

    /// Push the ids of the elements of `range` onto the free stack, so that
    /// the lowest index ends on top.
    fn add_free_range(&mut self, range: Range)
        requires
            old(self).base % WORD_SIZE == 0,
            old(self).base > 0,
            old(self).entries@.len() > 0,
            old(self).base + old(self).entries@.len() * WORD_SIZE <= ADDRESS_LIMIT,
            old(self).stack@.no_duplicates(),
            forall|i: int| 0 <= i < old(self).stack@.len() ==> 0 <= #[trigger] old(self).stack@[i] < range.lower_spec(),
            range.lower_spec() <= range.upper_spec() <= old(self).entries@.len(),
            if old(self).stack@.len() == 0 {
                old(self).free.raw == NULL_OBJECT_ID_RAW
            } else {
                old(self).free == id_at(old(self).base as int, old(self).stack@[0])
            },
            forall|i: int| 0 <= i < old(self).stack@.len() ==> #[trigger] old(self).entries@[old(self).stack@[i]] == (
                if i + 1 < old(self).stack@.len() {
                    id_at(old(self).base as int, old(self).stack@[i + 1]).raw
                } else {
                    NULL_OBJECT_ID_RAW
                }),
        ensures
            final(self).wf(),
            final(self).base == old(self).base,
            final(self).entries@.len() == old(self).entries@.len(),
            final(self).stack@ == Seq::new((range.upper_spec() - range.lower_spec()) as nat, |i: int| range.lower_spec() + i) + old(self).stack@,
            forall|i: int| 0 <= i < old(self).entries@.len() && !(range.lower_spec() <= i < range.upper_spec()) && !old(self).stack@.contains(i)
                ==> final(self).entries@[i] == old(self).entries@[i],
    {
        let lower = range.lower();
        let upper = range.upper();
        let ghost old_stack = self.stack@;
        let ghost old_entries = self.entries@;
        let mut index: usize = upper;
        while index > lower
            invariant
                lower <= index <= upper,
                self.base == old(self).base,
                self.base % WORD_SIZE == 0,
                self.base > 0,
                self.entries@.len() == old_entries.len(),
                self.base + self.entries@.len() * WORD_SIZE <= ADDRESS_LIMIT,
                upper <= self.entries@.len(),
                self.stack@ == Seq::new((upper - index) as nat, |i: int| index + i) + old_stack,
                forall|i: int| 0 <= i < old_stack.len() ==> 0 <= #[trigger] old_stack[i] < lower,
                old_stack.no_duplicates(),
                if self.stack@.len() == 0 {
                    self.free.raw == NULL_OBJECT_ID_RAW
                } else {
                    self.free == id_at(self.base as int, self.stack@[0])
                },
                forall|i: int| 0 <= i < self.stack@.len() ==> #[trigger] self.entries@[self.stack@[i]] == (
                    if i + 1 < self.stack@.len() {
                        id_at(self.base as int, self.stack@[i + 1]).raw
                    } else {
                        NULL_OBJECT_ID_RAW
                    }),
                forall|i: int| 0 <= i < old_entries.len() && !(index <= i < upper) && !old_stack.contains(i)
                    ==> self.entries@[i] == old_entries[i],
            decreases index - lower,
        {
            index = index - 1;
            let object_id = self.index_to_object_id(index);
            let ghost prev_stack = self.stack@;
            let ghost prev_entries = self.entries@;
            let top = self.free.raw;
            self.entries.set(index, top);
            self.free = object_id;
            self.stack = Ghost(seq![index as int] + prev_stack);
            proof {
                assert(self.stack@ =~= Seq::new((upper - index) as nat, |i: int| index + i) + old_stack);
                assert forall|i: int| 0 <= i < prev_stack.len() implies prev_stack[i] != index by {
                    if i < upper - index - 1 {
                    } else {
                        assert(prev_stack[i] == old_stack[i - (upper - index - 1)]);
                    }
                }
                assert forall|i: int| 0 <= i < self.stack@.len() implies #[trigger] self.entries@[self.stack@[i]] == (
                    if i + 1 < self.stack@.len() {
                        id_at(self.base as int, self.stack@[i + 1]).raw
                    } else {
                        NULL_OBJECT_ID_RAW
                    }) by {
                    if i > 0 {
                        assert(self.stack@[i] == prev_stack[i - 1]);
                        assert(prev_entries[prev_stack[i - 1]] == (
                            if i < prev_stack.len() {
                                id_at(self.base as int, prev_stack[i]).raw
                            } else {
                                NULL_OBJECT_ID_RAW
                            }));
                    }
                }
            }
        }
        proof {
            let s = self.stack@;
            assert forall|a: int, b: int| 0 <= a < s.len() && 0 <= b < s.len() && a != b implies s[a] != s[b] by {
                if a < upper - lower && b >= upper - lower {
                    assert(s[b] == old_stack[b - (upper - lower)]);
                } else if b < upper - lower && a >= upper - lower {
                    assert(s[a] == old_stack[a - (upper - lower)]);
                } else if a >= upper - lower {
                    assert(s[a] == old_stack[a - (upper - lower)]);
                    assert(s[b] == old_stack[b - (upper - lower)]);
                }
            }
            assert forall|i: int| 0 <= i < s.len() implies 0 <= #[trigger] s[i] < self.entries@.len() by {
                if i >= upper - lower {
                    assert(s[i] == old_stack[i - (upper - lower)]);
                }
            }
        }
    }

    /// Allocate a free id and record `address` for it.
    #[verifier::rlimit(40)]
    pub fn new_object_id(&mut self, address: usize) -> (r: Value)
        requires
            old(self).wf(),
            old(self).free_count() > 0,
        ensures
            final(self).wf(),
            !old(self).view().contains_key(r),
            old(self).is_table_id(r),
            final(self).view() == old(self).view().insert(r, address),
            final(self).free_count() == old(self).free_count() - 1,
            r == id_at(old(self).base_spec(), old(self).free_stack()[0]),
            final(self).free_stack() == old(self).free_stack().drop_first(),
            final(self).base_spec() == old(self).base_spec(),
            final(self).len_spec() == old(self).len_spec(),
    {
        let object_id = self.pop_free_id();
        self.write_element(object_id, address);
        proof {
            let k0 = old(self).stack@[0];
            let olds = old(self).stack@;
            let news = self.stack@;
            old(self).lemma_id_index(k0);
            assert forall|id: Value| #[trigger] self.is_allocated(id) == (old(self).is_allocated(id) || id == object_id) by {
                if self.is_table_id(id) {
                    self.lemma_index_id(id);
                    let k = self.index_of(id);
                    if news.contains(k) {
                        let j = choose|j: int| 0 <= j < news.len() && news[j] == k;
                        assert(olds[j + 1] == k);
                        assert(olds.contains(k));
                    }
                    if k != k0 && olds.contains(k) {
                        let j = choose|j: int| 0 <= j < olds.len() && olds[j] == k;
                        assert(j > 0);
                        assert(news[j - 1] == k);
                    }
                }
            }
            assert forall|id: Value| #[trigger] self.is_allocated(id) implies self.entry(self.index_of(id)) == (
                if id == object_id { address } else { old(self).entry(old(self).index_of(id)) }) by {
                self.lemma_index_id(id);
            }
            assert(self.view() =~= old(self).view().insert(object_id, address));
        }
        object_id
    }

    /// Return the id of a discarded object to the free stack.
    pub fn free_object_id(&mut self, object_id: Value)
        requires
            old(self).wf(),
            old(self).view().contains_key(object_id),
        ensures
            final(self).wf(),
            final(self).view() == old(self).view().remove(object_id),
            final(self).free_count() == old(self).free_count() + 1,
            final(self).free_stack() == seq![old(self).index_of(object_id)] + old(self).free_stack(),
            final(self).base_spec() == old(self).base_spec(),
            final(self).len_spec() == old(self).len_spec(),
    {
        self.push_free_id(object_id);
        proof {
            let k0 = old(self).index_of(object_id);
            let olds = old(self).stack@;
            let news = self.stack@;
            old(self).lemma_index_id(object_id);
            assert forall|id: Value| #[trigger] self.is_allocated(id) == (old(self).is_allocated(id) && id != object_id) by {
                if self.is_table_id(id) {
                    self.lemma_index_id(id);
                    let k = self.index_of(id);
                    assert(news[0] == k0);
                    if olds.contains(k) {
                        let j = choose|j: int| 0 <= j < olds.len() && olds[j] == k;
                        assert(news[j + 1] == k);
                    }
                    if news.contains(k) && k != k0 {
                        let j = choose|j: int| 0 <= j < news.len() && news[j] == k;
                        assert(j > 0);
                        assert(olds[j - 1] == k);
                    }
                }
            }
            assert forall|id: Value| #[trigger] self.is_allocated(id) implies self.entry(self.index_of(id)) == old(self).entry(old(self).index_of(id)) by {
                self.lemma_index_id(id);
            }
            assert(self.view() =~= old(self).view().remove(object_id));
        }
    }

    /// Address recorded for an allocated id.
    pub fn get_object_address(&self, object_id: Value) -> (r: usize)
        requires
            self.wf(),
            self.view().contains_key(object_id),
        ensures
            r == self.view()[object_id],
    {
        self.read_element(object_id)
    }

    /// Record that an object obtained a new address.
    pub fn move_object(&mut self, object_id: Value, new_address: usize)
        requires
            old(self).wf(),
            old(self).view().contains_key(object_id),
        ensures
            final(self).wf(),
            final(self).view() == old(self).view().insert(object_id, new_address),
            final(self).free_count() == old(self).free_count(),
            final(self).base_spec() == old(self).base_spec(),
            final(self).len_spec() == old(self).len_spec(),
    {
        self.write_element(object_id, new_address);
        proof {
            assert(self.view() =~= old(self).view().insert(object_id, new_address));
        }
    }

    /// Extend the table by `extra` elements, whose ids become free.
    pub fn grow(&mut self, extra: usize)
        requires
            old(self).wf(),
            old(self).end_spec() + extra * WORD_SIZE <= ADDRESS_LIMIT,
        ensures
            final(self).wf(),
            final(self).view() == old(self).view(),
            final(self).base_spec() == old(self).base_spec(),
            final(self).len_spec() == old(self).len_spec() + extra,
            final(self).free_count() == old(self).free_count() + extra,
            final(self).free_stack() == Seq::new(extra as nat, |i: int| old(self).len_spec() + i) + old(self).free_stack(),
    {
        let old_length = self.entries.len();
        let mut i: usize = 0;
        while i < extra
            invariant
                i <= extra,
                self.base == old(self).base,
                self.free == old(self).free,
                self.stack@ == old(self).stack@,
                self.entries@.len() == old_length + i,
                old_length == old(self).entries@.len(),
                forall|k: int| 0 <= k < old_length ==> self.entries@[k] == old(self).entries@[k],
            decreases extra - i,
        {
            self.entries.push(0);
            i = i + 1;
        }
        let ghost mid = *self;
        assert(forall|k: int| 0 <= k < mid.stack@.len() ==> #[trigger] mid.stack@[k] < old_length);
        self.add_free_range(Range::new(old_length, old_length + extra));
        proof {
            let s = self.stack@;
            assert forall|id: Value| #[trigger] self.is_allocated(id) <==> old(self).is_allocated(id) by {
                if self.is_table_id(id) {
                    self.lemma_index_id(id);
                    let k = self.index_of(id);
                    if old_length <= k {
                        assert(s[k - old_length] == k);
                    }
                    if old(self).stack@.contains(k) {
                        let j = choose|j: int| 0 <= j < old(self).stack@.len() && old(self).stack@[j] == k;
                        assert(s[j + extra] == k);
                    }
                    if s.contains(k) && k < old_length {
                        let j = choose|j: int| 0 <= j < s.len() && s[j] == k;
                        assert(j >= extra);
                        assert(old(self).stack@[j - extra] == k);
                    }
                }
            }
            assert forall|id: Value| #[trigger] self.is_allocated(id) implies self.entry(self.index_of(id)) == old(self).entry(old(self).index_of(id)) by {
                self.lemma_index_id(id);
            }
            assert(self.view() =~= old(self).view());
        }
    }

    fn push_free_id(&mut self, object_id: Value)
        requires
            old(self).wf(),
            old(self).is_allocated(object_id),
        ensures
            final(self).wf(),
            final(self).base == old(self).base,
            final(self).entries@.len() == old(self).entries@.len(),
            final(self).stack@ == seq![old(self).index_of(object_id)] + old(self).stack@,
            forall|k: int| 0 <= k < old(self).entries@.len() && k != old(self).index_of(object_id)
                ==> final(self).entries@[k] == old(self).entries@[k],
    {
        let index = self.element_index(object_id);
        proof {
            self.lemma_index_id(object_id);
        }
        let top = self.free.raw;
        self.entries.set(index, top);
        self.free = object_id;
        let ghost prev = old(self).stack@;
        self.stack = Ghost(seq![index as int] + prev);
        proof {
            assert forall|i: int| 0 <= i < self.stack@.len() implies #[trigger] self.entries@[self.stack@[i]] == (
                if i + 1 < self.stack@.len() {
                    id_at(self.base as int, self.stack@[i + 1]).raw
                } else {
                    NULL_OBJECT_ID_RAW
                }) by {
                if i > 0 {
                    assert(self.stack@[i] == prev[i - 1]);
                    assert(prev[i - 1] != index);
                }
            }
            assert forall|a: int, b: int| 0 <= a < self.stack@.len() && 0 <= b < self.stack@.len() && a != b
                implies self.stack@[a] != self.stack@[b] by {
                if a > 0 && b > 0 {
                    assert(self.stack@[a] == prev[a - 1]);
                    assert(self.stack@[b] == prev[b - 1]);
                } else if a > 0 {
                    assert(self.stack@[a] == prev[a - 1]);
                } else {
                    assert(self.stack@[b] == prev[b - 1]);
                }
            }
            assert forall|i: int| 0 <= i < self.stack@.len() implies 0 <= #[trigger] self.stack@[i] < self.entries@.len() by {
                if i > 0 {
                    assert(self.stack@[i] == prev[i - 1]);
                }
            }
        }
    }

    fn pop_free_id(&mut self) -> (r: Value)
        requires
            old(self).wf(),
            old(self).free_count() > 0,
        ensures
            final(self).wf(),
            final(self).base == old(self).base,
            final(self).entries == old(self).entries,
            r == id_at(old(self).base as int, old(self).stack@[0]),
            final(self).stack@ == old(self).stack@.drop_first(),
    {
        let object_id = self.free;
        let ghost prev = self.stack@;
        proof {
            self.lemma_id_index(prev[0]);
        }
        let index = self.element_index(object_id);
        let next = self.entries[index];
        self.free = Value { raw: next };
        self.stack = Ghost(prev.drop_first());
        proof {
            assert(prev[0] == index);
            assert forall|a: int, b: int| 0 <= a < self.stack@.len() && 0 <= b < self.stack@.len() && a != b
                implies self.stack@[a] != self.stack@[b] by {
                assert(self.stack@[a] == prev[a + 1]);
                assert(self.stack@[b] == prev[b + 1]);
            }
            assert forall|i: int| 0 <= i < self.stack@.len() implies #[trigger] self.entries@[self.stack@[i]] == (
                if i + 1 < self.stack@.len() {
                    id_at(self.base as int, self.stack@[i + 1]).raw
                } else {
                    NULL_OBJECT_ID_RAW
                }) by {
                assert(self.stack@[i] == prev[i + 1]);
                assert(prev[i + 1] == prev[(i + 1) as int]);
            }
            if self.stack@.len() > 0 {
                assert(self.entries@[prev[0]] == id_at(self.base as int, prev[1]).raw);
            }
        }
        object_id
    }

    fn write_element(&mut self, object_id: Value, value: usize)
        requires
            old(self).wf(),
            old(self).is_allocated(object_id),
        ensures
            final(self).wf(),
            final(self).base == old(self).base,
            final(self).free == old(self).free,
            final(self).stack == old(self).stack,
            final(self).entries@ == old(self).entries@.update(old(self).index_of(object_id), value),
    {
        let index = self.element_index(object_id);
        self.entries.set(index, value);
        proof {
            assert forall|i: int| 0 <= i < self.stack@.len() implies #[trigger] self.stack@[i] != index by {
            }
        }
    }

    fn read_element(&self, object_id: Value) -> (r: usize)
        requires
            self.wf(),
            self.is_table_id(object_id),
        ensures
            r == self.entry(self.index_of(object_id)),
    {
        let index = self.element_index(object_id);
        self.entries[index]
    }
}

/// The id-to-address map after `move_object` was called with each pair of
/// `moves`, in order.
pub open spec fn after_moves(table: Map<Value, usize>, moves: Seq<(Value, usize)>) -> Map<Value, usize>
    decreases moves.len(),
{
    if moves.len() == 0 {
        table
    } else {
        after_moves(table, moves.drop_last()).insert(moves.last().0, moves.last().1)
    }
}

/// Across any sequence of moves of other objects, an allocated id keeps its
/// address: `get_object_address` returns the same address before and after.
pub proof fn law_address_stable_without_move(
    table: Map<Value, usize>,
    moves: Seq<(Value, usize)>,
    id: Value,
)
    requires
        table.contains_key(id),
        forall|i: int| 0 <= i < moves.len() ==> (#[trigger] moves[i]).0 != id,
    ensures
        after_moves(table, moves).contains_key(id),
        after_moves(table, moves)[id] == table[id],
    decreases moves.len(),
{
    if moves.len() > 0 {
        let rest = moves.drop_last();
        assert forall|i: int| 0 <= i < rest.len() implies (#[trigger] rest[i]).0 != id by {
            assert(rest[i] == moves[i]);
        }
        law_address_stable_without_move(table, rest, id);
        assert(moves.last() == moves[moves.len() - 1]);
    }
}

} // verus!

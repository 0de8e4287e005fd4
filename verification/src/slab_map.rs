//! The heap-backed slot store: an ordered sequence of slots whose index is
//! the key, with an intrusive free list for O(1) reuse of removed slots.
use vstd::prelude::*;
use vstd::pervasive::unreached;
use vstd::pervasive::VecAdditionalExecFns;

use crate::entry::Block;
use crate::entry::Entry;
use crate::entry::INVALID_INDEX;
use crate::entry::aligned;
use crate::entry::block_next;
use crate::entry::block_ok;
use crate::entry::blocks_ok;
use crate::entry::covers;
use crate::entry::is_free;
use crate::entry::lemma_aligned_step;
use crate::entry::lemma_append_occupied;
use crate::entry::lemma_drop_last_occupied;
use crate::entry::lemma_insert_reuse_head;
use crate::entry::lemma_insert_reuse_tail;
use crate::entry::lemma_remove_prepend;
use crate::table::count_prefix;
use crate::table::first_none;
use crate::table::lemma_count_full;
use crate::table::lemma_count_prefix_congruent;
use crate::table::lemma_count_prefix_le;
use crate::table::lemma_count_prefix_occupancy;
use crate::table::lemma_count_prefix_skip_none;
use crate::table::lemma_trim_nones;
use crate::table::trim_nones;
use crate::entry::lemma_aligned_zero;
use crate::entry::slot_of;
use crate::entry::view_of;
use crate::table::lemma_pairs_from_contains;
use crate::table::lemma_pairs_from_none_range;
use crate::table::pairs_from;
use crate::table::lemma_pairs_from_len_drop_last;
use crate::table::lemma_pairs_from_len_le;
use crate::table::lemma_pairs_from_len_lt;
use crate::table::lemma_pairs_from_len_push;
use crate::table::lemma_pairs_from_len_update;
use crate::table::inserted;
use crate::table::lookup;
use crate::table::pairs_of;
use crate::table::table_of;
use crate::table::table_set;

verus! {

/// A slot container that hands out integer keys on insertion. The key of a
/// value is the index of the slot that holds it; removed slots are chained
/// into a free list and reused by later insertions.
#[derive(Clone)]
pub struct SlabMap<T> {
    entries: Vec<Entry<T>>,
    next_vacant_idx: usize,
    len: usize,
    non_optimized_count: usize,
    blocks: Ghost<Seq<Block>>,
    cap: Ghost<nat>,
}

/// Owned result of classifying one slot, so that the borrow of the slot ends
/// before the store is mutated.
enum SlotKind {
    Full,
    Head(usize),
    Tail(usize),
}

fn kind_of<T>(e: &Entry<T>) -> (r: SlotKind)
    ensures
        r is Full <==> e is Occupied,
        r matches SlotKind::Head(b) ==> e == (Entry::VacantHead::<T> { vacant_body_len: b }),
        e is VacantHead ==> r is Head,
        r matches SlotKind::Tail(n) ==> e == (Entry::VacantTail::<T> { next_vacant_idx: n }),
        e is VacantTail ==> r is Tail,
{
    match e {
        Entry::Occupied(_) => SlotKind::Full,
        Entry::VacantHead { vacant_body_len } => SlotKind::Head(*vacant_body_len),
        Entry::VacantTail { next_vacant_idx } => SlotKind::Tail(*next_vacant_idx),
    }
}

/// How one slot relates across `retain` with predicate `f`: an occupied
/// slot is kept exactly when `f` approved it, and a vacant slot stays vacant.
pub open spec fn retain_rel<T, F: Fn(usize, &T) -> bool>(
    f: F,
    j: int,
    o: Option<T>,
    n: Option<T>,
) -> bool {
    match o {
        Some(x) => (n == Some(x) && call_ensures(f, (j as usize, &x), true)) || (n is None
            && call_ensures(f, (j as usize, &x), false)),
        None => n is None,
    }
}

/// The block structure built so far by a compaction pass over `[0, vhi)`:
/// every finished block is well formed and lies below `vhi`, blocks are
/// disjoint, they cover every vacant slot below `vhi`, and `head` is the
/// start of the first block or the sentinel.
spec fn partial_blocks<T>(s: Seq<Entry<T>>, nb: Seq<Block>, vhi: int, head: usize) -> bool {
    &&& (forall|k: int|
        0 <= k < nb.len() ==> #[trigger] block_ok(s, nb, k) && nb[k].start + nb[k].len <= vhi)
    &&& (forall|k1: int, k2: int, i: int|
        0 <= k1 < nb.len() && 0 <= k2 < nb.len() && k1 != k2 && #[trigger] covers(nb[k1], i)
            ==> !#[trigger] covers(nb[k2], i))
    &&& (forall|j: int|
        0 <= j < vhi && is_free(#[trigger] s[j]) ==> exists|k: int|
            0 <= k < nb.len() && #[trigger] covers(nb[k], j))
    &&& (nb.len() == 0 ==> head == INVALID_INDEX)
    &&& (nb.len() > 0 ==> head == nb[0].start)
}

/// The pending patch point of a compaction pass: the tail slot of the last
/// finished block, whose link is rewritten when the next block is found.
spec fn tail_link(nb: Seq<Block>, pt: Option<usize>) -> bool {
    match pt {
        None => nb.len() == 0,
        Some(t) => nb.len() > 0 && t == nb.last().start + nb.last().len - 1,
    }
}

impl<T> View for SlabMap<T> {
    type V = Seq<Option<T>>;

    closed spec fn view(&self) -> Seq<Option<T>> {
        view_of(self.entries@)
    }
}

impl<T> SlabMap<T> {
    /// The container's internal invariant: the ghost blocks describe the
    /// vacant regions exactly, the free-list head is the start of the first
    /// block (or the sentinel when there is none), the stored length counts
    /// the occupied slots, and the pending-compaction counter never exceeds
    /// the number of vacant slots.
    pub closed spec fn wf(self) -> bool {
        &&& blocks_ok(self.entries@, self.blocks@)
        &&& (self.blocks@.len() == 0 ==> self.next_vacant_idx == INVALID_INDEX)
        &&& (self.blocks@.len() > 0 ==> self.next_vacant_idx == self.blocks@[0].start)
        &&& self.len == pairs_of(self@).len()
        &&& self.non_optimized_count + pairs_of(self@).len() <= self@.len()
        &&& self@.len() <= self.cap@
    }

    /// The value at `key`: `None` when the key is out of range or vacant.
    #[verifier::inline]
    pub open spec fn spec_get(self, key: usize) -> Option<T> {
        lookup(self@, key)
    }

    /// The key the next insertion will hand out.
    pub closed spec fn spec_next_key(self) -> usize {
        if self.blocks@.len() > 0 {
            self.blocks@[0].start as usize
        } else {
            self.entries@.len() as usize
        }
    }

    /// Whether the free space is in compacted form, making `optimize` a no-op.
    pub closed spec fn spec_is_optimized(self) -> bool {
        self.non_optimized_count == 0
    }

    /// The number of slots the backing table can hold without reallocating.
    pub closed spec fn spec_capacity(self) -> nat {
        self.cap@
    }

    /// Relies on Vec::with_capacity: replaces the backing table with a
    /// fresh vector of at least the requested capacity; a request of zero
    /// does not allocate, so the capacity is then exactly zero. Only the
    /// slot table and its capacity change.
    #[verifier::external_body]
    fn backing_init(&mut self, capacity: usize)
        ensures
            final(self).entries@ == Seq::<Entry<T>>::empty(),
            final(self).cap@ >= capacity,
            capacity == 0 ==> final(self).cap@ == 0,
            final(self).next_vacant_idx == old(self).next_vacant_idx,
            final(self).len == old(self).len,
            final(self).non_optimized_count == old(self).non_optimized_count,
            final(self).blocks == old(self).blocks,
    {
        self.entries = Vec::with_capacity(capacity);
    }

    /// Relies on Vec::capacity: reports the tracked capacity of the backing
    /// table. The ghost capacity field mirrors the vector's real capacity
    /// through the trusted operations around it.
    #[verifier::external_body]
    fn backing_capacity(&self) -> (c: usize)
        ensures
            c == self.cap@,
    {
        self.entries.capacity()
    }

    /// Relies on Vec::push: appends one slot. Per std's documented capacity
    /// rules, a push reallocates only when the length equals the capacity,
    /// and a vector never shrinks on its own. Only the slot table and its
    /// capacity change.
    #[verifier::external_body]
    fn entries_push(&mut self, e: Entry<T>)
        ensures
            final(self).entries@ == old(self).entries@.push(e),
            final(self).cap@ >= final(self).entries@.len(),
            final(self).cap@ >= old(self).cap@,
            old(self).entries@.len() < old(self).cap@ ==> final(self).cap@ == old(self).cap@,
            final(self).next_vacant_idx == old(self).next_vacant_idx,
            final(self).len == old(self).len,
            final(self).non_optimized_count == old(self).non_optimized_count,
            final(self).blocks == old(self).blocks,
    {
        self.entries.push(e)
    }

    /// Relies on Vec::reserve: afterwards the capacity holds the current
    /// length plus `additional` more slots; it does nothing when the
    /// capacity is already sufficient, and never shrinks. Only the capacity
    /// changes.
    #[verifier::external_body]
    fn entries_reserve(&mut self, additional: usize)
        ensures
            final(self).cap@ >= final(self).entries@.len() + additional,
            final(self).cap@ >= old(self).cap@,
            old(self).entries@.len() + additional <= old(self).cap@ ==> final(self).cap@ == old(self).cap@,
            final(self).entries@ == old(self).entries@,
            final(self).next_vacant_idx == old(self).next_vacant_idx,
            final(self).len == old(self).len,
            final(self).non_optimized_count == old(self).non_optimized_count,
            final(self).blocks == old(self).blocks,
    {
        self.entries.reserve(additional)
    }

    /// Relies on Vec::reserve_exact: the same documented guarantees as
    /// Vec::reserve, with only the lower capacity bound promised.
    #[verifier::external_body]
    fn entries_reserve_exact(&mut self, additional: usize)
        ensures
            final(self).cap@ >= final(self).entries@.len() + additional,
            final(self).cap@ >= old(self).cap@,
            old(self).entries@.len() + additional <= old(self).cap@ ==> final(self).cap@ == old(self).cap@,
            final(self).entries@ == old(self).entries@,
            final(self).next_vacant_idx == old(self).next_vacant_idx,
            final(self).len == old(self).len,
            final(self).non_optimized_count == old(self).non_optimized_count,
            final(self).blocks == old(self).blocks,
    {
        self.entries.reserve_exact(additional)
    }

    /// Relies on Vec::try_reserve: on success the capacity holds the current
    /// length plus `additional` more slots; on failure an error is returned
    /// instead of panicking and the contents are unchanged; it does nothing
    /// and succeeds when the capacity is already sufficient, and never
    /// shrinks.
    #[verifier::external_body]
    fn entries_try_reserve(&mut self, additional: usize) -> (r: Result<
        (),
        std::collections::TryReserveError,
    >)
        ensures
            r is Ok ==> final(self).cap@ >= final(self).entries@.len() + additional,
            final(self).cap@ >= old(self).cap@,
            old(self).entries@.len() + additional <= old(self).cap@ ==> r is Ok && final(self).cap@ == old(self).cap@,
            final(self).entries@ == old(self).entries@,
            final(self).next_vacant_idx == old(self).next_vacant_idx,
            final(self).len == old(self).len,
            final(self).non_optimized_count == old(self).non_optimized_count,
            final(self).blocks == old(self).blocks,
    {
        self.entries.try_reserve(additional)
    }

    /// Relies on Vec::try_reserve_exact: the same documented guarantees as
    /// Vec::try_reserve, with only the lower capacity bound promised.
    #[verifier::external_body]
    fn entries_try_reserve_exact(&mut self, additional: usize) -> (r: Result<
        (),
        std::collections::TryReserveError,
    >)
        ensures
            r is Ok ==> final(self).cap@ >= final(self).entries@.len() + additional,
            final(self).cap@ >= old(self).cap@,
            old(self).entries@.len() + additional <= old(self).cap@ ==> r is Ok && final(self).cap@ == old(self).cap@,
            final(self).entries@ == old(self).entries@,
            final(self).next_vacant_idx == old(self).next_vacant_idx,
            final(self).len == old(self).len,
            final(self).non_optimized_count == old(self).non_optimized_count,
            final(self).blocks == old(self).blocks,
    {
        self.entries.try_reserve_exact(additional)
    }

    /// Constructs a new, empty `SlabMap<T>`.
    pub fn new() -> (r: Self)
        ensures
            r.wf(),
            r@ == Seq::<Option<T>>::empty(),
            r.spec_is_optimized(),
            r.spec_capacity() == 0,
    {
        let mut r = Self {
            entries: Vec::new(),
            next_vacant_idx: INVALID_INDEX,
            len: 0,
            non_optimized_count: 0,
            blocks: Ghost(Seq::empty()),
            cap: Ghost(0nat),
        };
        r.backing_init(0);
        proof {
            assert(r@ =~= Seq::<Option<T>>::empty());
        }
        r
    }

    /// Constructs a new, empty `SlabMap<T>` with at least the given capacity.
    pub fn with_capacity(capacity: usize) -> (r: Self)
        ensures
            r.wf(),
            r@ == Seq::<Option<T>>::empty(),
            r.spec_is_optimized(),
            r.spec_capacity() >= capacity,
    {
        let mut r = Self {
            entries: Vec::new(),
            next_vacant_idx: INVALID_INDEX,
            len: 0,
            non_optimized_count: 0,
            blocks: Ghost(Seq::empty()),
            cap: Ghost(0nat),
        };
        r.backing_init(capacity);
        proof {
            assert(r@ =~= Seq::<Option<T>>::empty());
        }
        r
    }

    /// Returns the number of elements in the map.
    pub fn len(&self) -> (r: usize)
        requires
            self.wf(),
        ensures
            r == pairs_of(self@).len(),
    {
        self.len
    }

    /// Returns true if the map contains no elements.
    pub fn is_empty(&self) -> (r: bool)
        requires
            self.wf(),
        ensures
            r == (pairs_of(self@).len() == 0),
    {
        self.len == 0
    }

    /// Returns a reference to the value corresponding to the key.
    pub fn get(&self, key: usize) -> (r: Option<&T>)
        ensures
            r matches Some(v) ==> self.spec_get(key) == Some(*v),
            r is None ==> self.spec_get(key) is None,
    {
        if key < self.entries.len() {
            match &self.entries[key] {
                Entry::Occupied(v) => Some(v),
                _ => None,
            }
        } else {
            None
        }
    }

    /// Returns true if the map holds a value for the key.
    pub fn contains_key(&self, key: usize) -> (r: bool)
        ensures
            r == (self.spec_get(key) is Some),
    {
        self.get(key).is_some()
    }

    /// Removes all elements.
    pub fn clear(&mut self)
        ensures
            final(self).wf(),
            final(self)@ == Seq::<Option<T>>::empty(),
            final(self).spec_is_optimized(),
            final(self).spec_next_key() == 0,
            final(self).spec_capacity() == old(self).spec_capacity(),
    {
        self.entries.clear();
        self.len = 0;
        self.next_vacant_idx = INVALID_INDEX;
        self.non_optimized_count = 0;
        self.blocks = Ghost(Seq::empty());
        proof {
            assert(self@ =~= Seq::<Option<T>>::empty());
        }
    }

    /// Inserts the value returned by `f`, which is given the key the value
    /// will be stored under. Returns that key. A vacant slot is reused when
    /// one exists; only otherwise does the store grow by one slot.
    pub fn insert_raw<F: FnOnce(usize) -> T>(&mut self, f: F) -> (k: usize)
        requires
            old(self).wf(),
            call_requires(f, (old(self).spec_next_key(),)),
        ensures
            final(self).wf(),
            k == old(self).spec_next_key(),
            old(self).spec_get(k) is None,
            exists|x: T| #[trigger]
                call_ensures(f, (k,), x) && final(self)@ == inserted(old(self)@, k, x),
            k < old(self)@.len() ==> final(self)@.len() == old(self)@.len(),
            k >= old(self)@.len() ==> k == old(self)@.len() && final(self)@.len() == old(self)@.len() + 1,
            pairs_of(final(self)@).len() == pairs_of(old(self)@).len() + 1,
            forall|j: usize| j != k ==> final(self).spec_get(j) == old(self).spec_get(j),
            old(self).spec_is_optimized() ==> final(self).spec_is_optimized(),
            k >= old(self)@.len() ==> final(self).spec_next_key() == final(self)@.len(),
            final(self).spec_capacity() >= old(self).spec_capacity(),
            k < old(self)@.len() ==> final(self).spec_capacity() == old(self).spec_capacity(),
            final(self)@.len() <= old(self).spec_capacity() ==> final(self).spec_capacity()
                == old(self).spec_capacity(),
    {
        proof {
            lemma_pairs_from_len_le(old(self)@, 0);
        }
        let ghost prev = *self;
        let idx: usize;
        if self.next_vacant_idx < self.entries.len() {
            idx = self.next_vacant_idx;
            proof {
                assert(prev.blocks@.len() > 0) by {
                    if prev.blocks@.len() == 0 {
                        assert(prev.next_vacant_idx == INVALID_INDEX);
                    }
                }
                assert(block_ok(prev.entries@, prev.blocks@, 0));
                assert(covers(prev.blocks@[0], idx as int));
                assert(is_free(prev.entries@[idx as int]));
                lemma_pairs_from_len_lt(prev@, 0, idx as int);
            }
            let next: usize;
            match kind_of(&self.entries[idx]) {
                SlotKind::Full => {
                    proof {
                        assert(false);
                    }
                    next = unreached();
                },
                SlotKind::Head(bl) => {
                    proof {
                        let b0 = prev.blocks@[0];
                        assert(b0.len >= 2) by {
                            if b0.len == 1 {
                                assert(prev.entries@[b0.start + b0.len - 1]
                                    == (Entry::VacantTail::<T> {
                                    next_vacant_idx: block_next(prev.blocks@, 0),
                                }));
                            }
                        }
                        assert(prev.entries@[b0.start] == (Entry::VacantHead::<T> {
                            vacant_body_len: (b0.len - 2) as usize,
                        }));
                        assert(bl == b0.len - 2);
                    }
                    if bl > 0 {
                        self.entries.set(
                            idx + 1,
                            Entry::VacantHead { vacant_body_len: bl - 1 },
                        );
                    }
                    next = idx + 1;
                },
                SlotKind::Tail(n) => {
                    proof {
                        let b0 = prev.blocks@[0];
                        assert(b0.len == 1) by {
                            if b0.len >= 2 {
                                assert(prev.entries@[b0.start] == (Entry::VacantHead::<T> {
                                    vacant_body_len: (b0.len - 2) as usize,
                                }));
                            }
                        }
                        assert(prev.entries@[b0.start + b0.len - 1] == (Entry::VacantTail::<T> {
                            next_vacant_idx: block_next(prev.blocks@, 0),
                        }));
                        assert(n == block_next(prev.blocks@, 0));
                    }
                    next = n;
                },
            }
            self.next_vacant_idx = next;
            self.entries.set(idx, Entry::Occupied(f(idx)));
            if self.non_optimized_count > 0 {
                self.non_optimized_count = self.non_optimized_count - 1;
            }
            proof {
                let bs0 = prev.blocks@;
                let b0 = bs0[0];
                let x = self.entries@[idx as int]->Occupied_0;
                if prev.entries@[idx as int] is VacantHead {
                    let nb = bs0.update(0, Block { start: b0.start + 1, len: b0.len - 1 });
                    self.blocks = Ghost(nb);
                    lemma_insert_reuse_head(prev.entries@, bs0, x);
                    assert(self.entries@ =~= (if b0.len >= 3 {
                        prev.entries@.update(
                            b0.start + 1,
                            Entry::VacantHead::<T> { vacant_body_len: (b0.len - 3) as usize },
                        )
                    } else {
                        prev.entries@
                    }).update(b0.start, Entry::Occupied(x)));
                    assert(self.next_vacant_idx == nb[0].start);
                } else {
                    let nb = bs0.subrange(1, bs0.len() as int);
                    self.blocks = Ghost(nb);
                    lemma_insert_reuse_tail(prev.entries@, bs0, x);
                    assert(self.entries@ =~= prev.entries@.update(
                        b0.start,
                        Entry::Occupied(x),
                    ));
                    assert(nb.len() > 0 ==> self.next_vacant_idx == nb[0].start) by {
                        if bs0.len() > 1 {
                            assert(block_ok(prev.entries@, bs0, 1));
                            assert(0 <= bs0[1].start <= usize::MAX);
                            assert(block_next(bs0, 0) == bs0[1].start);
                        }
                    }
                }
                assert(self@ =~= prev@.update(idx as int, Some(x)));
                assert(self@ == inserted(prev@, idx, x));
                lemma_pairs_from_len_update(prev@, 0, idx as int, Some(x));
            }
        } else {
            idx = self.entries.len();
            proof {
                assert(prev.blocks@.len() == 0) by {
                    if prev.blocks@.len() > 0 {
                        assert(block_ok(prev.entries@, prev.blocks@, 0));
                    }
                }
            }
            self.entries_push(Entry::Occupied(f(idx)));
            proof {
                let x = self.entries@[idx as int]->Occupied_0;
                lemma_append_occupied(prev.entries@, prev.blocks@, x);
                assert(self@ =~= prev@.push(Some(x)));
                assert(self@ == inserted(prev@, idx, x));
                lemma_pairs_from_len_push(prev@, 0, Some(x));
            }
        }
        let n = self.entries.len();
        proof {
            assert(pairs_of(self@).len() <= self@.len()) by {
                lemma_pairs_from_len_le(self@, 0);
            }
            assert(self@.len() == n);
            assert(self.len == pairs_of(prev@).len());
            assert(pairs_of(self@).len() == pairs_of(prev@).len() + 1);
        }
        self.len = self.len + 1;
        proof {
            assert(old(self).spec_get(idx) is None) by {
                if (idx as int) < prev.entries@.len() {
                    assert(prev@[idx as int] == slot_of(prev.entries@[idx as int]));
                }
            }
        }
        idx
    }

    /// Inserts a value into the map and returns the key assigned to it.
    pub fn insert(&mut self, value: T) -> (k: usize)
        requires
            old(self).wf(),
        ensures
            final(self).wf(),
            k == old(self).spec_next_key(),
            old(self).spec_get(k) is None,
            final(self)@ == inserted(old(self)@, k, value),
            k < old(self)@.len() ==> final(self)@.len() == old(self)@.len(),
            k >= old(self)@.len() ==> k == old(self)@.len() && final(self)@.len() == old(self)@.len() + 1,
            pairs_of(final(self)@).len() == pairs_of(old(self)@).len() + 1,
            final(self).spec_get(k) == Some(value),
            forall|j: usize| j != k ==> final(self).spec_get(j) == old(self).spec_get(j),
            old(self).spec_is_optimized() ==> final(self).spec_is_optimized(),
            k >= old(self)@.len() ==> final(self).spec_next_key() == final(self)@.len(),
            final(self).spec_capacity() >= old(self).spec_capacity(),
            k < old(self)@.len() ==> final(self).spec_capacity() == old(self).spec_capacity(),
            final(self)@.len() <= old(self).spec_capacity() ==> final(self).spec_capacity()
                == old(self).spec_capacity(),
    {
        let g = |key: usize| -> (res: T)
            ensures
                res == value,
            { value };
        let k = self.insert_raw(g);
        proof {
            let x = choose|x: T| #[trigger]
                call_ensures(g, (k,), x) && self@ == inserted(old(self)@, k, x);
            assert(x == value);
        }
        k
    }

    /// Inserts the value built by `f` from the key it will be stored under,
    /// and returns that key.
    pub fn insert_with_key<F: FnOnce(usize) -> T>(&mut self, f: F) -> (k: usize)
        requires
            old(self).wf(),
            call_requires(f, (old(self).spec_next_key(),)),
        ensures
            final(self).wf(),
            k == old(self).spec_next_key(),
            old(self).spec_get(k) is None,
            exists|x: T| #[trigger]
                call_ensures(f, (k,), x) && final(self)@ == inserted(old(self)@, k, x) && final(self).spec_get(k) == Some(x),
            pairs_of(final(self)@).len() == pairs_of(old(self)@).len() + 1,
            forall|j: usize| j != k ==> final(self).spec_get(j) == old(self).spec_get(j),
            old(self).spec_is_optimized() ==> final(self).spec_is_optimized(),
            k >= old(self)@.len() ==> final(self).spec_next_key() == final(self)@.len(),
            final(self).spec_capacity() >= old(self).spec_capacity(),
            k < old(self)@.len() ==> final(self).spec_capacity() == old(self).spec_capacity(),
            final(self)@.len() <= old(self).spec_capacity() ==> final(self).spec_capacity()
                == old(self).spec_capacity(),
    {
        let k = self.insert_raw(f);
        proof {
            let x = choose|x: T| #[trigger]
                call_ensures(f, (k,), x) && self@ == inserted(old(self)@, k, x);
            assert(self@[k as int] == Some(x));
        }
        k
    }

    /// Removes the value at `key` and returns it, or returns `None` when the
    /// key is out of range or vacant. Removing the highest slot shrinks the
    /// store by one slot; removing the last element resets the store.
    pub fn remove(&mut self, key: usize) -> (r: Option<T>)
        requires
            old(self).wf(),
        ensures
            final(self).wf(),
            r == old(self).spec_get(key),
            final(self).spec_get(key) is None,
            forall|j: usize| j != key ==> final(self).spec_get(j) == old(self).spec_get(j),
            old(self).spec_get(key) is None ==> final(self)@ == old(self)@,
            old(self).spec_get(key) is Some ==> pairs_of(final(self)@).len() == pairs_of(
                old(self)@,
            ).len() - 1 && (if pairs_of(old(self)@).len() == 1 {
                final(self)@ == Seq::<Option<T>>::empty()
            } else if key + 1 == old(self)@.len() {
                final(self)@ == old(self)@.drop_last()
            } else {
                final(self)@ == old(self)@.update(key as int, None)
            }),
            old(self).spec_get(key) is Some && pairs_of(old(self)@).len() == 1 ==> final(self).spec_is_optimized() && final(self).spec_next_key() == 0,
            old(self).spec_get(key) is Some && pairs_of(old(self)@).len() > 1 && key + 1 == old(self)@.len() ==> final(self).spec_is_optimized() == old(self).spec_is_optimized() && (old(self).spec_next_key() < old(self)@.len() ==> final(self).spec_next_key() == old(self).spec_next_key()) && (old(self).spec_next_key() == old(self)@.len() ==> final(self).spec_next_key() == old(self)@.len() - 1),
            old(self).spec_get(key) is Some && pairs_of(old(self)@).len() > 1 && key + 1 < old(self)@.len() ==> final(self).spec_next_key() == key && !final(self).spec_is_optimized(),
            final(self).spec_capacity() == old(self).spec_capacity(),
    {
        if key >= self.entries.len() {
            return None;
        }
        let ghost prev = *self;
        match kind_of(&self.entries[key]) {
            SlotKind::Full => {},
            _ => {
                proof {
                    assert(self.spec_get(key) is None);
                }
                return None;
            },
        }
        proof {
            lemma_pairs_from_contains(prev@, 0, (key, prev.entries@[key as int]->Occupied_0));
            assert(pairs_of(prev@).len() >= 1);
        }
        self.len = self.len - 1;
        let e: Entry<T>;
        let is_last = key + 1 == self.entries.len();
        if is_last {
            let popped = self.entries.pop();
            e = match popped {
                Some(en) => en,
                None => unreached(),
            };
            proof {
                assert(self.entries@ =~= prev.entries@.drop_last());
                assert(self@ =~= prev@.drop_last());
                lemma_pairs_from_len_drop_last(prev@, 0);
                lemma_drop_last_occupied(prev.entries@, prev.blocks@);
                if prev.spec_next_key() == prev@.len() {
                    assert(prev.blocks@.len() == 0) by {
                        if prev.blocks@.len() > 0 {
                            assert(block_ok(prev.entries@, prev.blocks@, 0));
                        }
                    }
                }
            }
        } else {
            let mut tmp = Entry::VacantTail { next_vacant_idx: self.next_vacant_idx };
            self.entries.set_and_swap(key, &mut tmp);
            e = tmp;
            self.next_vacant_idx = key;
            proof {
                lemma_pairs_from_len_le(prev@, 0);
                lemma_pairs_from_len_update(prev@, 0, key as int, None);
                assert(self@ =~= prev@.update(key as int, None));
            }
            self.non_optimized_count = self.non_optimized_count + 1;
            proof {
                let bs0 = prev.blocks@;
                let nb = seq![Block { start: key as int, len: 1 }] + bs0;
                self.blocks = Ghost(nb);
                lemma_remove_prepend(prev.entries@, bs0, key as int);
                assert(prev.next_vacant_idx == (if bs0.len() > 0 {
                    bs0[0].start as usize
                } else {
                    INVALID_INDEX
                }));
                assert(self.entries@ =~= prev.entries@.update(
                    key as int,
                    Entry::VacantTail::<T> { next_vacant_idx: prev.next_vacant_idx },
                ));
                assert(pairs_of(self@).len() == pairs_of(prev@).len() - 1);
            }
        }
        if self.len == 0 {
            self.clear();
        }
        proof {
            let x0 = prev.entries@[key as int]->Occupied_0;
            assert(prev.spec_get(key) == Some(x0));
            assert forall|j: usize| j != key implies self.spec_get(j) == prev.spec_get(j) by {
                if self@.len() == 0 && prev.spec_get(j) is Some {
                    let xj = prev@[j as int]->0;
                    lemma_pairs_from_contains(prev@, 0, (j, xj));
                    lemma_pairs_from_contains(prev@, 0, (key, x0));
                    let j1 = choose|m: int|
                        0 <= m < pairs_of(prev@).len() && #[trigger] pairs_of(prev@)[m] == (
                        j,
                        xj,
                    );
                    let j2 = choose|m: int|
                        0 <= m < pairs_of(prev@).len() && #[trigger] pairs_of(prev@)[m] == (
                        key,
                        x0,
                    );
                    assert(j1 != j2);
                    assert(pairs_of(prev@).len() >= 2);
                }
            }
        }
        match e {
            Entry::Occupied(v) => Some(v),
            _ => unreached(),
        }
    }

    /// The walk of a compaction pass reads defined content everywhere:
    /// either the container is well formed, or no slot is a run head (as
    /// after element-wise construction), so no skip arithmetic is needed.
    pub closed spec fn rebuild_safe(self) -> bool {
        self.wf() || (self.no_heads() && self@.len() <= self.cap@)
    }

    /// No slot is a run head, as in a store built element-wise.
    pub(crate) closed spec fn no_heads(self) -> bool {
        forall|i: int|
            0 <= i < self.entries@.len() ==> !(#[trigger] self.entries@[i] is VacantHead)
    }

    /// Closes the vacant span `[vacant_head_idx, vacant_end_idx)` during a
    /// compaction pass: writes the head/tail bracketing of the span, links
    /// the previous block's tail to it, and makes the free-list head point
    /// at the first span found.
    #[verifier::spinoff_prover]
    fn set_vacants(
        &mut self,
        vacant_head_idx: usize,
        vacant_end_idx: usize,
        prev_vacant_tail_idx: &mut Option<usize>,
        nb: Ghost<Seq<Block>>,
    ) -> (r: Ghost<Seq<Block>>)
        requires
            vacant_head_idx <= vacant_end_idx <= old(self).entries@.len(),
            forall|j: int|
                vacant_head_idx <= j < vacant_end_idx ==> is_free(
                    #[trigger] old(self).entries@[j],
                ),
            partial_blocks(
                old(self).entries@,
                nb@,
                vacant_head_idx as int,
                old(self).next_vacant_idx,
            ),
            tail_link(nb@, *old(prev_vacant_tail_idx)),
        ensures
            final(self).entries@.len() == old(self).entries@.len(),
            view_of(final(self).entries@) == view_of(old(self).entries@),
            forall|j: int|
                vacant_end_idx <= j < old(self).entries@.len() ==> final(self).entries@[j] == old(self).entries@[j],
            partial_blocks(
                final(self).entries@,
                r@,
                vacant_end_idx as int,
                final(self).next_vacant_idx,
            ),
            tail_link(r@, *final(prev_vacant_tail_idx)),
            r@ == (if vacant_head_idx < vacant_end_idx {
                nb@.push(
                    Block {
                        start: vacant_head_idx as int,
                        len: vacant_end_idx - vacant_head_idx,
                    },
                )
            } else {
                nb@
            }),
            final(self).len == old(self).len,
            final(self).non_optimized_count == old(self).non_optimized_count,
            final(self).cap == old(self).cap,
    {
        if vacant_head_idx >= vacant_end_idx {
            proof {
                assert forall|j: int|
                    0 <= j < vacant_end_idx && is_free(#[trigger] self.entries@[j]) implies exists|
                    k: int,
                |
                    0 <= k < nb@.len() && #[trigger] covers(nb@[k], j) by {}
            }
            return nb;
        }
        let ghost s0 = self.entries@;
        let ghost bs = nb@;
        let vhi = vacant_head_idx;
        let end = vacant_end_idx;
        proof {
            if bs.len() > 0 {
                assert(block_ok(s0, bs, 0));
                assert(self.next_vacant_idx == bs[0].start);
                assert(bs[0].start + bs[0].len <= vhi as int);
                assert(self.next_vacant_idx < INVALID_INDEX);
            }
        }
        if self.next_vacant_idx == INVALID_INDEX {
            self.next_vacant_idx = vhi;
        }
        if end - vhi >= 2 {
            self.entries.set(vhi, Entry::VacantHead { vacant_body_len: end - vhi - 2 });
        }
        self.entries.set(end - 1, Entry::VacantTail { next_vacant_idx: INVALID_INDEX });
        let pt = *prev_vacant_tail_idx;
        match pt {
            Some(t) => {
                proof {
                    assert(bs.len() > 0);
                    assert(block_ok(s0, bs, bs.len() - 1));
                    assert(covers(bs[bs.len() - 1], t as int));
                }
                self.entries.set(t, Entry::VacantTail { next_vacant_idx: vhi });
            },
            None => {},
        }
        *prev_vacant_tail_idx = Some(end - 1);
        let ghost newb = Block { start: vhi as int, len: end - vhi };
        let ghost r = bs.push(newb);
        proof {
            let s1 = self.entries@;
            let ghost tpos: Seq<int> = if pt is Some {
                seq![pt->0 as int]
            } else {
                seq![]
            };
            assert forall|j: int| 0 <= j < s0.len() implies slot_of(s1[j]) == slot_of(s0[j]) by {
                if j == vhi as int || j == end - 1 {
                    assert(is_free(s0[j]));
                } else if pt is Some && j == pt->0 as int {
                    assert(covers(bs[bs.len() - 1], j));
                    assert(block_ok(s0, bs, bs.len() - 1));
                    assert(is_free(s0[j]));
                }
            }
            assert(view_of(s1) =~= view_of(s0));
            assert forall|k: int|
                0 <= k < r.len() implies #[trigger] block_ok(s1, r, k) && r[k].start + r[k].len
                <= end as int by {
                if k < bs.len() {
                    assert(block_ok(s0, bs, k));
                    assert forall|j: int|
                        r[k].start <= j < r[k].start + r[k].len implies is_free(
                        #[trigger] s1[j],
                    ) by {
                        assert(covers(bs[k], j));
                        assert(is_free(s0[j]));
                        if pt is Some && j == pt->0 as int {
                        } else {
                            assert(j < vhi as int);
                            assert(s1[j] == s0[j]);
                        }
                    }
                    let tk = bs[k].start + bs[k].len - 1;
                    assert(covers(bs[k], tk));
                    if k < bs.len() - 1 {
                        assert(s1[tk] == s0[tk]) by {
                            if pt is Some && tk == pt->0 as int {
                                assert(covers(bs[bs.len() - 1], tk));
                            }
                        }
                        assert(block_next(r, k) == block_next(bs, k));
                    } else {
                        assert(pt is Some);
                        assert(tk == pt->0 as int);
                        assert(s1[tk] == (Entry::VacantTail::<T> { next_vacant_idx: vhi }));
                        assert(block_next(r, k) == vhi);
                    }
                    if bs[k].len >= 2 {
                        assert(s1[bs[k].start] == s0[bs[k].start]) by {
                            assert(covers(bs[k], bs[k].start));
                            if pt is Some && bs[k].start == pt->0 as int {
                                assert(covers(bs[bs.len() - 1], bs[k].start));
                                assert(k == bs.len() - 1);
                                assert(bs[k].start == bs[k].start + bs[k].len - 1);
                            }
                        }
                    }
                } else {
                    assert(r[k] == newb);
                    assert forall|j: int|
                        newb.start <= j < newb.start + newb.len implies is_free(
                        #[trigger] s1[j],
                    ) by {
                        if j != vhi as int && j != end - 1 {
                            assert(s1[j] == s0[j]);
                            assert(is_free(s0[j]));
                        }
                    }
                    assert(s1[end - 1] == (Entry::VacantTail::<T> {
                        next_vacant_idx: INVALID_INDEX,
                    }));
                    assert(block_next(r, k) == INVALID_INDEX);
                    if newb.len >= 2 {
                        assert(s1[vhi as int] == (Entry::VacantHead::<T> {
                            vacant_body_len: (end - vhi - 2) as usize,
                        }));
                    }
                }
            }
            assert forall|k1: int, k2: int, i: int|
                0 <= k1 < r.len() && 0 <= k2 < r.len() && k1 != k2 && #[trigger] covers(r[k1], i)
                implies !#[trigger] covers(r[k2], i) by {
                if k1 < bs.len() && k2 < bs.len() {
                } else if k1 == bs.len() && covers(r[k1], i) && k2 < bs.len() {
                    if covers(bs[k2], i) {
                        assert(block_ok(s0, bs, k2));
                    }
                } else if k2 == bs.len() && covers(r[k2], i) && k1 < bs.len() {
                    if covers(bs[k1], i) {
                        assert(block_ok(s0, bs, k1));
                    }
                }
            }
            assert forall|j: int|
                0 <= j < end && is_free(#[trigger] s1[j]) implies exists|k: int|
                0 <= k < r.len() && #[trigger] covers(r[k], j) by {
                if j < vhi as int {
                    assert(is_free(s0[j]));
                    let k0 = choose|k: int| 0 <= k < bs.len() && #[trigger] covers(bs[k], j);
                    assert(covers(r[k0], j));
                } else {
                    assert(covers(r[bs.len() as int], j));
                }
            }
            if bs.len() > 0 {
                assert(self.next_vacant_idx == bs[0].start);
                assert(r[0] == bs[0]);
            } else {
                assert(self.next_vacant_idx == vhi);
            }
        }
        Ghost(r)
    }

    /// One linear pass that fuses filtering and compaction: walks the slots,
    /// drops every occupied slot the predicate rejects, rewrites each vacant
    /// span into head/tail form, truncates the trailing vacant span, and
    /// recomputes the free list and the length.
    #[verifier::rlimit(50)]
    fn rebuild_vacants_with<F: Fn(usize, &T) -> bool>(&mut self, f: F)
        requires
            old(self).rebuild_safe(),
            forall|j: usize, x: T|
                lookup(old(self)@, j) == Some(x) ==> call_requires(f, (j, &x)),
        ensures
            final(self).wf(),
            final(self).spec_is_optimized(),
            final(self)@.len() <= old(self)@.len(),
            forall|j: int|
                0 <= j < final(self)@.len() ==> retain_rel(
                    f,
                    j,
                    old(self)@[j],
                    #[trigger] final(self)@[j],
                ),
            forall|j: int|
                final(self)@.len() <= j < old(self)@.len() ==> (#[trigger] old(self)@[j] matches
                    Some(x) ==> call_ensures(f, (j as usize, &x), false)),
            final(self)@.len() > 0 ==> final(self)@.last() is Some,
            final(self).spec_next_key() == first_none(final(self)@, 0),
            final(self).spec_capacity() == old(self).spec_capacity(),
    {
        let ghost s0 = self.entries@;
        let ghost bs0 = self.blocks@;
        let ghost v0 = self@;
        let ghost cap0 = self.cap@;
        let ghost total = self.entries@.len() as int;
        let n0 = self.entries.len();
        let mut idx: usize = 0;
        let mut vacant_head_idx: usize = 0;
        let mut prev_vacant_tail_idx: Option<usize> = None;
        let mut len: usize = 0;
        self.next_vacant_idx = INVALID_INDEX;
        let mut nb: Ghost<Seq<Block>> = Ghost(Seq::empty());
        proof {
            if blocks_ok(s0, bs0) {
                lemma_aligned_zero(s0, bs0);
            }
        }
        while idx < self.entries.len()
            invariant
                self.entries@.len() == s0.len(),
                s0.len() <= usize::MAX,
                self.cap@ == cap0,
                s0.len() <= cap0,
                vacant_head_idx <= idx,
                idx as int <= s0.len(),
                v0 == view_of(s0),
                forall|j: int| idx <= j < s0.len() ==> self.entries@[j] == s0[j],
                (blocks_ok(s0, bs0) && aligned(bs0, idx as int)) || (forall|i: int|
                    0 <= i < s0.len() ==> !(#[trigger] s0[i] is VacantHead)),
                forall|j: int|
                    0 <= j < idx ==> retain_rel(
                        f,
                        j,
                        v0[j],
                        #[trigger] view_of(self.entries@)[j],
                    ),
                forall|j: int|
                    vacant_head_idx <= j < idx ==> view_of(self.entries@)[j] is None,
                vacant_head_idx > 0 ==> view_of(self.entries@)[vacant_head_idx - 1] is Some,
                len as int == count_prefix(view_of(self.entries@), vacant_head_idx as int),
                len <= vacant_head_idx,
                forall|k: int| 0 <= k < nb@.len() ==> #[trigger] block_ok(self.entries@, nb@, k),
                forall|k: int|
                    0 <= k < nb@.len() ==> (#[trigger] nb@[k]).start + nb@[k].len
                        <= vacant_head_idx as int,
                forall|k1: int, k2: int|
                    0 <= k1 < k2 < nb@.len() ==> (#[trigger] nb@[k1]).start + nb@[k1].len
                        <= (#[trigger] nb@[k2]).start,
                forall|k1: int, k2: int, i: int|
                    0 <= k1 < nb@.len() && 0 <= k2 < nb@.len() && k1 != k2 && #[trigger] covers(
                        nb@[k1],
                        i,
                    ) ==> !#[trigger] covers(nb@[k2], i),
                forall|j: int|
                    0 <= j < vacant_head_idx && is_free(#[trigger] self.entries@[j])
                        ==> exists|k: int| 0 <= k < nb@.len() && #[trigger] covers(nb@[k], j),
                nb@.len() == 0 ==> self.next_vacant_idx == INVALID_INDEX,
                nb@.len() > 0 ==> self.next_vacant_idx == nb@[0].start,
                tail_link(nb@, prev_vacant_tail_idx),
                forall|j: usize, x: T| lookup(v0, j) == Some(x) ==> call_requires(f, (j, &x)),
            decreases s0.len() - idx,
        {
            let ghost s_cur = self.entries@;
            match kind_of(&self.entries[idx]) {
                SlotKind::Tail(_) => {
                    proof {
                        if blocks_ok(s0, bs0) && aligned(bs0, idx as int) {
                            lemma_aligned_step(s0, bs0, idx as int);
                        }
                        assert(view_of(s_cur)[idx as int] is None);
                    }
                    idx = idx + 1;
                    proof {
                        assert(forall|k: int|
                            0 <= k < nb@.len() ==> #[trigger] block_ok(self.entries@, nb@, k)
                                && nb@[k].start + nb@[k].len <= vacant_head_idx as int);
                    }
                },
                SlotKind::Head(bl) => {
                    proof {
                        assert(s0[idx as int] is VacantHead);
                        assert(blocks_ok(s0, bs0) && aligned(bs0, idx as int));
                        lemma_aligned_step(s0, bs0, idx as int);
                        assert(idx + bl + 2 <= s0.len());
                        assert forall|j: int|
                            idx <= j < idx + bl + 2 implies view_of(s_cur)[j] is None by {
                            assert(view_of(s0)[j] is None);
                            assert(s_cur[j] == s0[j]);
                        }
                    }
                    idx = idx + bl + 2;
                    proof {
                        assert(forall|k: int|
                            0 <= k < nb@.len() ==> #[trigger] block_ok(self.entries@, nb@, k)
                                && nb@[k].start + nb@[k].len <= vacant_head_idx as int);
                    }
                },
                SlotKind::Full => {
                    let keep = match &self.entries[idx] {
                        Entry::Occupied(v) => {
                            proof {
                                assert(s_cur[idx as int] == s0[idx as int]);
                                assert(lookup(v0, idx) == Some(*v));
                            }
                            f(idx, v)
                        },
                        _ => unreached(),
                    };
                    proof {
                        if blocks_ok(s0, bs0) && aligned(bs0, idx as int) {
                            lemma_aligned_step(s0, bs0, idx as int);
                        }
                    }
                    if keep {
                        let ghost x = s_cur[idx as int]->Occupied_0;
                        proof {
                            assert forall|j: int|
                                vacant_head_idx <= j < idx implies is_free(
                                #[trigger] self.entries@[j],
                            ) by {
                                assert(view_of(s_cur)[j] is None);
                            }
                            assert(partial_blocks(
                                self.entries@,
                                nb@,
                                vacant_head_idx as int,
                                self.next_vacant_idx,
                            ));
                        }
                        nb = self.set_vacants(vacant_head_idx, idx, &mut prev_vacant_tail_idx, nb);
                        proof {
                            assert(partial_blocks(
                                self.entries@,
                                nb@,
                                idx as int,
                                self.next_vacant_idx,
                            ));
                            assert(self.entries@[idx as int] == s_cur[idx as int]);
                            assert forall|j: int|
                                0 <= j < idx + 1 && is_free(#[trigger] self.entries@[j]) implies
                                exists|k: int|
                                0 <= k < nb@.len() && #[trigger] covers(nb@[k], j) by {
                                assert(j != idx);
                            }
                            assert forall|k: int|
                                0 <= k < nb@.len() implies #[trigger] block_ok(
                                self.entries@,
                                nb@,
                                k,
                            ) && nb@[k].start + nb@[k].len <= idx + 1 by {}
                            let v1 = view_of(self.entries@);
                            assert(v1 == view_of(s_cur));
                            lemma_count_prefix_skip_none(v1, vacant_head_idx as int, idx as int);
                            assert(v1[idx as int] == Some(x));
                            assert(count_prefix(v1, idx + 1) == count_prefix(v1, idx as int)
                                + 1);
                        }
                        let ghost idx0 = idx as int;
                        idx = idx + 1;
                        len = len + 1;
                        vacant_head_idx = idx;
                        proof {
                            assert(vacant_head_idx as int == idx0 + 1);
                            assert forall|k: int|
                                0 <= k < nb@.len() implies #[trigger] block_ok(
                                self.entries@,
                                nb@,
                                k,
                            ) && nb@[k].start + nb@[k].len <= vacant_head_idx as int by {
                                assert(block_ok(self.entries@, nb@, k));
                                assert(nb@[k].start + nb@[k].len <= idx0 + 1);
                            }
                        }
                    } else {
                        self.entries.set(
                            idx,
                            Entry::VacantTail { next_vacant_idx: INVALID_INDEX },
                        );
                        proof {
                            let v1 = view_of(self.entries@);
                            assert(v1 =~= view_of(s_cur).update(idx as int, None));
                            assert(call_ensures(f, (idx, &s_cur[idx as int]->Occupied_0), false));
                            lemma_count_prefix_congruent(
                                view_of(s_cur),
                                v1,
                                vacant_head_idx as int,
                            );
                            assert forall|k: int|
                                0 <= k < nb@.len() implies #[trigger] block_ok(
                                self.entries@,
                                nb@,
                                k,
                            ) && nb@[k].start + nb@[k].len <= vacant_head_idx as int by {
                                assert(block_ok(s_cur, nb@, k));
                                assert forall|j: int|
                                    nb@[k].start <= j < nb@[k].start + nb@[k].len implies is_free(
                                    #[trigger] self.entries@[j],
                                ) by {
                                    assert(covers(nb@[k], j));
                                    assert(is_free(s_cur[j]));
                                }
                                assert(covers(nb@[k], nb@[k].start + nb@[k].len - 1));
                                assert(covers(nb@[k], nb@[k].start));
                            }
                            assert forall|j: int|
                                0 <= j < vacant_head_idx && is_free(
                                    #[trigger] self.entries@[j],
                                ) implies exists|k: int|
                                0 <= k < nb@.len() && #[trigger] covers(nb@[k], j) by {
                                assert(self.entries@[j] == s_cur[j]);
                                assert(is_free(s_cur[j]));
                            }
                        }
                        idx = idx + 1;
                    proof {
                        assert(forall|k: int|
                            0 <= k < nb@.len() ==> #[trigger] block_ok(self.entries@, nb@, k)
                                && nb@[k].start + nb@[k].len <= vacant_head_idx as int);
                    }
                    }
                },
            }
        }
        let ghost s_pre = self.entries@;
        let ghost v_pre = view_of(s_pre);
        self.entries.truncate(vacant_head_idx);
        self.non_optimized_count = 0;
        self.len = len;
        self.blocks = nb;
        proof {
            let s1 = self.entries@;
            let v1 = self@;
            assert(s1 =~= s_pre.subrange(0, vacant_head_idx as int));
            assert(tail_link(nb@, prev_vacant_tail_idx));
            assert forall|j: int| 0 <= j < vacant_head_idx implies v1[j] == v_pre[j] by {}
            assert forall|k: int| 0 <= k < nb@.len() implies block_ok(s1, nb@, k) by {
                assert(block_ok(s_pre, nb@, k));
                assert forall|j: int|
                    nb@[k].start <= j < nb@[k].start + nb@[k].len implies is_free(
                    #[trigger] s1[j],
                ) by {
                    assert(covers(nb@[k], j));
                    assert(is_free(s_pre[j]));
                }
                assert(covers(nb@[k], nb@[k].start + nb@[k].len - 1));
                assert(covers(nb@[k], nb@[k].start));
            }
            assert forall|i: int| 0 <= i < s1.len() && is_free(#[trigger] s1[i]) implies exists|
                k: int,
            |
                0 <= k < nb@.len() && #[trigger] covers(nb@[k], i) by {
                assert(is_free(s_pre[i]));
            }
            lemma_count_prefix_congruent(v_pre, v1, vacant_head_idx as int);
            lemma_count_full(v1);
            lemma_count_prefix_le(v1, v1.len() as int);
            assert(self.len == pairs_of(self@).len());
            assert forall|j: int|
                v1.len() <= j < v0.len() implies (#[trigger] v0[j] matches Some(x)
                    ==> call_ensures(f, (j as usize, &x), false)) by {
                assert(retain_rel(f, j, v0[j], v_pre[j]));
                assert(v_pre[j] is None);
            }
            assert forall|j: int| 0 <= j < v1.len() implies retain_rel(
                f,
                j,
                v0[j],
                #[trigger] v1[j],
            ) by {
                assert(retain_rel(f, j, v0[j], v_pre[j]));
            }
            if nb@.len() == 0 {
                assert forall|j: int| 0 <= j < v1.len() implies v1[j] is Some by {
                    if is_free(s1[j]) {
                        assert(is_free(s_pre[j]));
                    }
                    assert(v1[j] == slot_of(s1[j]));
                }
                crate::table::lemma_first_none_char(v1, v1.len() as int);
            } else {
                let m = nb@[0].start;
                assert(block_ok(s1, nb@, 0));
                assert(covers(nb@[0], m));
                assert(is_free(s1[m]));
                assert(v1[m] is None);
                assert forall|j: int| 0 <= j < m implies v1[j] is Some by {
                    if is_free(s1[j]) {
                        let k0 = choose|k: int|
                            0 <= k < nb@.len() && #[trigger] covers(nb@[k], j);
                        if k0 > 0 {
                            assert(nb@[0].start + nb@[0].len <= nb@[k0].start);
                        }
                        assert(covers(nb@[k0], j));
                    }
                    assert(v1[j] == slot_of(s1[j]));
                }
                crate::table::lemma_first_none_char(v1, m);
            }
        }
    }
    /// Rebuilds the free list into compacted form, keeping every element:
    /// the table only loses its trailing vacant slots.
    pub(crate) fn rebuild_vacants(&mut self)
        requires
            old(self).rebuild_safe(),
        ensures
            final(self).wf(),
            final(self).spec_is_optimized(),
            final(self)@ == trim_nones(old(self)@),
            final(self).spec_next_key() == first_none(final(self)@, 0),
            final(self).spec_capacity() == old(self).spec_capacity(),
    {
        let n0 = self.entries.len();
        proof {
            assert(old(self)@.len() == n0);
        }
        let g = |_k: usize, _v: &T| -> (r: bool)
            ensures
                r,
            { true };
        proof {
            assert forall|j: usize, x: T|
                lookup(old(self)@, j) == Some(x) implies call_requires(g, (j, &x)) by {}
        }
        self.rebuild_vacants_with(g);
        proof {
            let v0 = old(self)@;
            let v1 = self@;
            lemma_trim_nones(v0);
            let t = trim_nones(v0);
            assert forall|j: int| 0 <= j < v1.len() implies v1[j] == v0[j] by {
                assert(retain_rel(g, j, v0[j], v1[j]));
            }
            assert forall|j: int| v1.len() <= j < v0.len() implies v0[j] is None by {
                if v0[j] is Some {
                    assert(call_ensures(g, (j as usize, &v0[j]->0), false));
                }
            }
            assert(v1.len() == t.len()) by {
                if v1.len() < t.len() {
                    assert(t[t.len() - 1] == v0[t.len() - 1]);
                    assert(t.last() is Some);
                    assert(v0[t.len() - 1] is None);
                } else if v1.len() > t.len() {
                    assert(v1[v1.len() - 1] is Some);
                    assert(v1[v1.len() - 1] == v0[v1.len() - 1]);
                    assert(v0[v1.len() - 1] is None);
                }
            }
            assert(v1 =~= t);
        }
    }

    /// Reorganizes the free space for fast iteration: every vacant span is
    /// rewritten into head/tail form and the trailing span is cut off. The
    /// held entries and their keys never change. Does nothing, in O(1), when
    /// the free space is already compacted.
    pub fn optimize(&mut self)
        requires
            old(self).wf(),
        ensures
            final(self).wf(),
            final(self).spec_is_optimized(),
            pairs_of(final(self)@) == pairs_of(old(self)@),
            forall|j: usize| final(self).spec_get(j) == old(self).spec_get(j),
            old(self).spec_is_optimized() ==> final(self)@ == old(self)@ && final(self).spec_next_key() == old(self).spec_next_key(),
            !old(self).spec_is_optimized() ==> final(self)@ == trim_nones(old(self)@) && final(self).spec_next_key() == first_none(final(self)@, 0),
            final(self).spec_capacity() == old(self).spec_capacity(),
    {
        if self.non_optimized_count != 0 {
            let n0 = self.entries.len();
            proof {
                assert(old(self)@.len() == n0);
                assert(self.rebuild_safe());
            }
            self.rebuild_vacants();
            proof {
                lemma_trim_nones(old(self)@);
            }
        }
    }

    /// Keeps only the elements the predicate approves, compacting the free
    /// space in the same pass. Kept elements keep their keys and values;
    /// the table loses its trailing vacant slots.
    pub fn retain<F: Fn(usize, &T) -> bool>(&mut self, f: F)
        requires
            old(self).wf(),
            forall|j: usize, x: T|
                lookup(old(self)@, j) == Some(x) ==> call_requires(f, (j, &x)),
        ensures
            final(self).wf(),
            final(self).spec_is_optimized(),
            final(self)@.len() <= old(self)@.len(),
            forall|j: int|
                0 <= j < final(self)@.len() ==> retain_rel(
                    f,
                    j,
                    old(self)@[j],
                    #[trigger] final(self)@[j],
                ),
            forall|j: int|
                final(self)@.len() <= j < old(self)@.len() ==> (#[trigger] old(self)@[j] matches
                    Some(x) ==> call_ensures(f, (j as usize, &x), false)),
            final(self)@.len() > 0 ==> final(self)@.last() is Some,
            final(self).spec_next_key() == first_none(final(self)@, 0),
            final(self).spec_capacity() == old(self).spec_capacity(),
    {
        self.rebuild_vacants_with(f)
    }

    /// Stores `value` at `key`, growing the table with vacant filler slots
    /// as needed. Used only while building a container element-wise; the
    /// free list is rebuilt afterwards.
    pub(crate) fn set(&mut self, key: usize, value: T)
        requires
            key < usize::MAX,
            old(self)@.len() <= old(self).spec_capacity(),
        ensures
            final(self)@ == table_set(old(self)@, key, value),
            old(self).no_heads() ==> final(self).no_heads(),
            final(self).spec_capacity() >= final(self)@.len(),
            final(self).spec_capacity() >= old(self).spec_capacity(),
            final(self)@.len() <= old(self).spec_capacity() ==> final(self).spec_capacity()
                == old(self).spec_capacity(),
    {
        let ghost s0 = self.entries@;
        let ghost v0 = self@;
        let ghost cap0 = self.cap@;
        while self.entries.len() < key + 1
            invariant
                key < usize::MAX,
                self.entries@.len() >= s0.len(),
                self.entries@.len() <= (if s0.len() < key + 1 {
                    key + 1
                } else {
                    s0.len() as int
                }),
                forall|j: int| 0 <= j < s0.len() ==> self.entries@[j] == s0[j],
                forall|j: int|
                    s0.len() <= j < self.entries@.len() ==> self.entries@[j]
                        == (Entry::VacantTail::<T> { next_vacant_idx: INVALID_INDEX }),
                self.cap@ >= cap0,
                self.cap@ >= self.entries@.len() || self.entries@ == s0,
                self.entries@.len() <= cap0 ==> self.cap@ == cap0,
            decreases key + 1 - self.entries@.len(),
        {
            self.entries_push(Entry::VacantTail { next_vacant_idx: INVALID_INDEX });
        }
        self.entries.set(key, Entry::Occupied(value));
        proof {
            let w = table_set(v0, key, value);
            assert(self@.len() == w.len());
            assert forall|j: int| 0 <= j < self@.len() implies self@[j] == w[j] by {
                if j == key {
                } else if j < s0.len() {
                    assert(self.entries@[j] == s0[j]);
                } else {
                    assert(self.entries@[j] == (Entry::VacantTail::<T> {
                        next_vacant_idx: INVALID_INDEX,
                    }));
                }
            }
            assert(self@ =~= w);
            assert(old(self).no_heads() ==> self.no_heads()) by {
                if old(self).no_heads() {
                    assert forall|m: int|
                        0 <= m < self.entries@.len() implies !(#[trigger] self.entries@[m]
                        is VacantHead) by {
                        if m != key && m < s0.len() {
                            assert(self.entries@[m] == s0[m]);
                        }
                    }
                }
            }
        }
    }

    /// Builds a container from `(key, value)` pairs, applied in order so
    /// that a later pair with the same key overwrites an earlier one, with
    /// at least the given capacity. One compaction pass runs at the end.
    pub fn from_iter_with_capacity(pairs: Vec<(usize, T)>, capacity: usize) -> (r: Self)
        requires
            forall|i: int| 0 <= i < pairs@.len() ==> (#[trigger] pairs@[i]).0 < usize::MAX,
        ensures
            r.wf(),
            r@ == table_of(pairs@),
            r.spec_is_optimized(),
            pairs_of(r@).len() == pairs_of(table_of(pairs@)).len(),
            r.spec_next_key() == first_none(r@, 0),
            r.spec_capacity() >= capacity,
            r.spec_capacity() >= r@.len(),
    {
        let ghost all = pairs@;
        let mut pairs = pairs;
        let mut this = Self::with_capacity(capacity);
        proof {
            assert(this@ =~= table_of(all.subrange(0, 0)));
        }
        let ghost mut i: int = 0;
        while pairs.len() > 0
            invariant
                0 <= i <= all.len(),
                pairs@ =~= all.subrange(i, all.len() as int),
                this@ == table_of(all.subrange(0, i)),
                forall|m: int| 0 <= m < all.len() ==> (#[trigger] all[m]).0 < usize::MAX,
                this.no_heads(),
                this@.len() <= this.spec_capacity(),
                this.spec_capacity() >= capacity,
            decreases all.len() - i,
        {
            let ghost done = all.subrange(0, i);
            proof {
                assert(pairs@.len() > 0);
                assert(i < all.len());
            }
            let (key, value) = pairs.remove(0);
            proof {
                assert(all[i] == (key, value));
            }
            this.set(key, value);
            proof {
                let done1 = all.subrange(0, i + 1);
                assert(done1.drop_last() =~= done);
                assert(done1.last() == (key, value));
                assert(this@ == table_of(done1));
                assert(pairs@ =~= all.subrange(i + 1, all.len() as int));
                i = i + 1;
            }
        }
        let n0 = this.entries.len();
        proof {
            assert(all.subrange(0, all.len() as int) =~= all);
            assert(table_of(all).len() == n0);
            assert(this.rebuild_safe());
        }
        this.rebuild_vacants();
        proof {
            crate::table::lemma_table_of_last_some(all);
            lemma_trim_nones(table_of(all));
            assert(trim_nones(table_of(all)) =~= table_of(all)) by {
                if table_of(all).len() > 0 {
                    assert(table_of(all).last() is Some);
                }
            }
        }
        this
    }

    /// The number of slots of the backing table, occupied or vacant.
    pub fn table_len(&self) -> (r: usize)
        ensures
            r == self@.len(),
    {
        self.entries.len()
    }

    /// A well-formed store's table never exceeds its capacity.
    pub proof fn lemma_capacity_bound(self)
        requires
            self.wf(),
        ensures
            self@.len() <= self.spec_capacity(),
    {
    }

    /// The table of a well-formed store always fits the machine.
    pub proof fn lemma_table_len_bound(self)
        ensures
            self@.len() <= usize::MAX,
    {
        broadcast use vstd::std_specs::vec::axiom_spec_len;

        assert(self.entries@.len() == vstd::std_specs::vec::spec_vec_len(&self.entries));
    }

    /// Returns the number of slots the map can hold without reallocating.
    pub fn capacity(&self) -> (r: usize)
        ensures
            r == self.spec_capacity(),
            self.wf() ==> r >= self@.len() && r >= pairs_of(self@).len(),
    {
        proof {
            if self.wf() {
                lemma_pairs_from_len_le(self@, 0);
            }
        }
        self.backing_capacity()
    }

    /// How many more backing slots are needed so that `additional` more
    /// elements fit: vacant slots already on hand count against the request.
    fn entries_additional(&self, additional: usize) -> (r: usize)
        requires
            self.wf(),
        ensures
            r == (if additional + pairs_of(self@).len() > self@.len() {
                additional + pairs_of(self@).len() - self@.len()
            } else {
                0
            }),
    {
        proof {
            lemma_pairs_from_len_le(self@, 0);
        }
        let free = self.entries.len() - self.len;
        if additional > free {
            additional - free
        } else {
            0
        }
    }

    /// Reserves capacity for at least `additional` more elements. Vacant
    /// slots already on hand count against the request, so churn within a
    /// previously reached size never grows the backing store.
    pub fn reserve(&mut self, additional: usize)
        requires
            old(self).wf(),
        ensures
            final(self).wf(),
            final(self)@ == old(self)@,
            final(self).spec_next_key() == old(self).spec_next_key(),
            final(self).spec_is_optimized() == old(self).spec_is_optimized(),
            final(self).spec_capacity() >= pairs_of(final(self)@).len() + additional,
            final(self).spec_capacity() >= old(self).spec_capacity(),
            pairs_of(old(self)@).len() + additional <= old(self).spec_capacity() ==> final(self).spec_capacity() == old(self).spec_capacity(),
            pairs_of(old(self)@).len() + additional <= old(self)@.len() ==> final(self).spec_capacity() == old(self).spec_capacity(),
    {
        let n = self.entries_additional(additional);
        self.entries_reserve(n);
    }

    /// Tries to reserve capacity for at least `additional` more elements;
    /// reports the error instead of aborting when allocation fails.
    pub fn try_reserve(&mut self, additional: usize) -> (r: Result<
        (),
        std::collections::TryReserveError,
    >)
        requires
            old(self).wf(),
        ensures
            final(self).wf(),
            final(self)@ == old(self)@,
            final(self).spec_next_key() == old(self).spec_next_key(),
            final(self).spec_is_optimized() == old(self).spec_is_optimized(),
            pairs_of(old(self)@).len() + additional <= old(self)@.len() ==> r is Ok && final(self).spec_capacity() == old(self).spec_capacity(),
            pairs_of(old(self)@).len() + additional <= old(self).spec_capacity() ==> r is Ok
                && final(self).spec_capacity() == old(self).spec_capacity(),
            r is Ok ==> final(self).spec_capacity() >= pairs_of(final(self)@).len() + additional,
            final(self).spec_capacity() >= old(self).spec_capacity(),
    {
        let n = self.entries_additional(additional);
        self.entries_try_reserve(n)
    }

    /// Reserves the minimum capacity for exactly `additional` more elements,
    /// counting vacant slots already on hand against the request.
    pub fn reserve_exact(&mut self, additional: usize)
        requires
            old(self).wf(),
        ensures
            final(self).wf(),
            final(self)@ == old(self)@,
            final(self).spec_next_key() == old(self).spec_next_key(),
            final(self).spec_is_optimized() == old(self).spec_is_optimized(),
            final(self).spec_capacity() >= pairs_of(final(self)@).len() + additional,
            final(self).spec_capacity() >= old(self).spec_capacity(),
            pairs_of(old(self)@).len() + additional <= old(self).spec_capacity() ==> final(self).spec_capacity() == old(self).spec_capacity(),
            pairs_of(old(self)@).len() + additional <= old(self)@.len() ==> final(self).spec_capacity() == old(self).spec_capacity(),
    {
        let n = self.entries_additional(additional);
        self.entries_reserve_exact(n);
    }

    /// Tries to reserve the minimum capacity for exactly `additional` more
    /// elements; reports the error instead of aborting when allocation fails.
    pub fn try_reserve_exact(&mut self, additional: usize) -> (r: Result<
        (),
        std::collections::TryReserveError,
    >)
        requires
            old(self).wf(),
        ensures
            final(self).wf(),
            final(self)@ == old(self)@,
            final(self).spec_next_key() == old(self).spec_next_key(),
            final(self).spec_is_optimized() == old(self).spec_is_optimized(),
            pairs_of(old(self)@).len() + additional <= old(self)@.len() ==> r is Ok && final(self).spec_capacity() == old(self).spec_capacity(),
            pairs_of(old(self)@).len() + additional <= old(self).spec_capacity() ==> r is Ok
                && final(self).spec_capacity() == old(self).spec_capacity(),
            r is Ok ==> final(self).spec_capacity() >= pairs_of(final(self)@).len() + additional,
            final(self).spec_capacity() >= old(self).spec_capacity(),
    {
        let n = self.entries_additional(additional);
        self.entries_try_reserve_exact(n)
    }

    /// Replaces the contents with clones of `source`'s elements at the same
    /// keys, reusing the backing allocation.
    pub fn clone_from(&mut self, source: &Self)
        where T: Clone
        requires
            old(self).wf(),
            source.wf(),
        ensures
            final(self).wf(),
            final(self).spec_is_optimized(),
            final(self)@.len() <= source@.len(),
            forall|j: int|
                0 <= j < final(self)@.len() ==> ((source@[j] is None <==> #[trigger] final(self)@[j] is None) && (source@[j] matches Some(x) ==> final(self)@[j] matches Some(y)
                    && vstd::pervasive::cloned::<T>(x, y))),
            forall|j: int| final(self)@.len() <= j < source@.len() ==> source@[j] is None,
            final(self)@.len() > 0 ==> final(self)@.last() is Some,
            pairs_of(final(self)@).len() == pairs_of(source@).len(),
            final(self).spec_capacity() >= old(self).spec_capacity(),
            source@.len() <= old(self).spec_capacity() ==> final(self).spec_capacity() == old(self).spec_capacity(),
    {
        let ghost cap0 = self.cap@;
        self.clear();
        let n = source.entries.len();
        let mut j: usize = 0;
        while j < n
            invariant
                n == source.entries@.len(),
                source.wf(),
                j <= n,
                self.no_heads(),
                self@.len() <= j,
                self@.len() <= self.spec_capacity(),
                self.spec_capacity() >= cap0,
                cap0 == old(self).spec_capacity(),
                source@.len() <= cap0 ==> self.spec_capacity() == cap0,
                forall|j2: int|
                    0 <= j2 < self@.len() ==> ((source@[j2] is None <==> #[trigger] self@[j2]
                        is None) && (source@[j2] matches Some(x) ==> self@[j2] matches Some(y)
                        && vstd::pervasive::cloned::<T>(x, y))),
                forall|j2: int| self@.len() <= j2 < j ==> source@[j2] is None,
                self@.len() > 0 ==> self@.last() is Some,
            decreases n - j,
        {
            let ghost prev = self@;
            match source.get(j) {
                Some(v) => {
                    let c = v.clone();
                    proof {
                        assert(source@[j as int] is Some);
                    }
                    self.set(j, c);
                    proof {
                        assert(self@ =~= table_set(prev, j, c));
                    }
                },
                None => {
                    proof {
                        assert(source.spec_get(j) is None);
                        assert(source@[j as int] is None);
                    }
                },
            }
            j = j + 1;
        }
        let ghost w = self@;
        proof {
            assert(self.rebuild_safe());
        }
        self.rebuild_vacants();
        proof {
            lemma_trim_nones(w);
            assert forall|j: int|
                self@.len() <= j < source@.len() implies source@[j] is None by {
                if j < w.len() {
                    assert(w[j] is None);
                }
            }
            lemma_count_full(self@);
            lemma_count_full(w);
            lemma_count_full(source@);
            crate::table::lemma_count_prefix_occupancy(w, source@, w.len() as int);
            lemma_count_prefix_skip_none(source@, w.len() as int, source@.len() as int);
            assert(pairs_of(self@).len() == pairs_of(w).len());
        }
    }

    /// A fully occupied map hands out its table length as the next key.
    pub proof fn lemma_full_next_key(self)
        requires
            self.wf(),
            self@.len() <= usize::MAX,
            forall|j: int| 0 <= j < self@.len() ==> self@[j] is Some,
        ensures
            self.spec_next_key() == self@.len(),
    {
        if self.blocks@.len() > 0 {
            assert(block_ok(self.entries@, self.blocks@, 0));
            let b = self.blocks@[0];
            assert(covers(b, b.start));
            assert(is_free(self.entries@[b.start]));
            assert(self@[b.start] == slot_of(self.entries@[b.start]));
        }
    }

    /// An empty store trivially has no run heads.
    pub(crate) proof fn lemma_empty_no_heads(self)
        requires
            self@.len() == 0,
        ensures
            self.no_heads(),
    {
    }

    /// An element-wise built store may be compacted.
    pub(crate) proof fn lemma_no_heads_rebuild_safe(self)
        requires
            self.no_heads(),
            self@.len() <= self.spec_capacity(),
        ensures
            self.rebuild_safe(),
    {
    }

    /// Returns a mutable reference to the value corresponding to the key.
    pub fn get_mut(&mut self, key: usize) -> (r: Option<&mut T>)
        requires
            old(self).wf(),
        ensures
            old(self).spec_get(key) is None ==> r is None && final(self)@ == old(self)@
                && final(self).wf(),
            old(self).spec_get(key) matches Some(x) ==> (r matches Some(v) && *v == x && final(self)@ == old(self)@.update(key as int, Some(*final(v))) && final(self).wf()),
            final(self).spec_capacity() == old(self).spec_capacity(),
    {
        if key >= self.entries.len() {
            return None;
        }
        let ghost prev = *self;
        match kind_of(&self.entries[key]) {
            SlotKind::Full => {},
            _ => {
                proof {
                    assert(self.spec_get(key) is None);
                }
                return None;
            },
        }
        proof {
            assert forall|fv: T|
                blocks_ok(
                    prev.entries@.update(key as int, Entry::Occupied(fv)),
                    prev.blocks@,
                ) && view_of(prev.entries@.update(key as int, Entry::Occupied(fv))) == prev@.update(
                    key as int,
                    Some(fv),
                ) && pairs_of(
                    view_of(prev.entries@.update(key as int, Entry::Occupied(fv))),
                ).len() == pairs_of(prev@).len() by {
                crate::entry::lemma_update_occupied(prev.entries@, prev.blocks@, key as int, fv);
                assert(view_of(prev.entries@.update(key as int, Entry::Occupied(fv)))
                    =~= prev@.update(key as int, Some(fv)));
                lemma_pairs_from_len_update(prev@, 0, key as int, Some(fv));
            }
        }
        let e = &mut self.entries[key];
        match e {
            Entry::Occupied(v) => Some(v),
            _ => unreached(),
        }
    }

    /// Returns a reference to the value at `key`. Unlike [`get`](SlabMap::get),
    /// callers must show the key is occupied.
    pub fn index(&self, key: usize) -> (r: &T)
        requires
            self.spec_get(key) is Some,
        ensures
            self.spec_get(key) == Some(*r),
    {
        match self.get(key) {
            Some(v) => v,
            None => unreached(),
        }
    }

    /// Returns a mutable reference to the value at `key`. Unlike
    /// [`get_mut`](SlabMap::get_mut), callers must show the key is occupied.
    pub fn index_mut(&mut self, key: usize) -> (r: &mut T)
        requires
            old(self).wf(),
            old(self).spec_get(key) is Some,
        ensures
            *r == old(self).spec_get(key)->0,
            final(self)@ == old(self)@.update(key as int, Some(*final(r))),
            final(self).wf(),
            final(self).spec_capacity() == old(self).spec_capacity(),
    {
        match self.get_mut(key) {
            Some(v) => v,
            None => unreached(),
        }
    }

    /// Gets a cursor over the entries of the map, sorted by key.
    ///
    /// After a large number of [`remove`](SlabMap::remove) calls,
    /// [`optimize`](SlabMap::optimize) should be called before iterating.
    pub fn iter<'a>(&'a self) -> (r: Iter<'a, T>)
        requires
            self.wf(),
        ensures
            r.wf(),
            r@ == pairs_of(self@),
    {
        let r = Iter {
            entries: self.entries.as_slice(),
            pos: 0,
            remaining: self.len,
            blocks: Ghost(self.blocks@),
        };
        proof {
            lemma_aligned_zero(self.entries@, self.blocks@);
        }
        r
    }

    /// Gets a cursor over the keys of the map, in sorted order.
    pub fn keys<'a>(&'a self) -> (r: Keys<'a, T>)
        requires
            self.wf(),
        ensures
            r.wf(),
            r@ == pairs_of(self@),
    {
        Keys(self.iter())
    }

    /// Gets a cursor over the values of the map, in key order.
    pub fn values<'a>(&'a self) -> (r: Values<'a, T>)
        requires
            self.wf(),
        ensures
            r.wf(),
            r@ == pairs_of(self@),
    {
        Values(self.iter())
    }

    /// Gets a cursor over the entries of the map, sorted by key, that lends
    /// out mutable references to the values. The map is mutably lent to the
    /// cursor for its whole lifetime; writes through the yielded references
    /// update the stored values in place and never change which keys are
    /// occupied.
    pub fn iter_mut<'a>(&'a mut self) -> (r: IterMut<'a, T>)
        requires
            old(self).wf(),
        ensures
            r.wf(),
            r@ == pairs_of(old(self)@),
    {
        let ghost bs = self.blocks@;
        let ghost orig = self.entries@;
        let n = self.len;
        let n0 = self.entries.len();
        proof {
            lemma_aligned_zero(orig, bs);
            assert(orig.len() == n0);
        }
        let rest = self.entries.as_mut_slice();
        IterMut { rest, off: 0, remaining: n, blocks: Ghost(bs), orig: Ghost(orig) }
    }

    /// Gets a cursor over the values of the map, in key order, that lends
    /// out mutable references.
    pub fn values_mut<'a>(&'a mut self) -> (r: ValuesMut<'a, T>)
        requires
            old(self).wf(),
        ensures
            r.wf(),
            r@ == pairs_of(old(self)@),
    {
        ValuesMut(self.iter_mut())
    }

    /// Turns the map into an owning cursor over its entries, sorted by key.
    pub fn into_iter(self) -> (r: IntoIter<T>)
        requires
            self.wf(),
        ensures
            r.wf(),
            r@ == pairs_of(self@),
    {
        let ghost bs = self.blocks@;
        let ghost orig = self.entries@;
        let n = self.len;
        proof {
            lemma_aligned_zero(orig, bs);
        }
        IntoIter {
            entries: self.entries,
            pos: 0,
            remaining: n,
            blocks: Ghost(bs),
            orig: Ghost(orig),
        }
    }

    /// Empties the map and returns its former entries as an owning cursor,
    /// sorted by key.
    pub fn drain(&mut self) -> (r: Drain<T>)
        requires
            old(self).wf(),
        ensures
            final(self).wf(),
            final(self)@ == Seq::<Option<T>>::empty(),
            final(self).spec_is_optimized(),
            final(self).spec_next_key() == 0,
            final(self).spec_capacity() == old(self).spec_capacity(),
            r.wf(),
            r@ == pairs_of(old(self)@),
    {
        let ghost bs = self.blocks@;
        let ghost orig = self.entries@;
        let n = self.len;
        let tmp: Vec<Entry<T>> = self.entries.split_off(0);
        self.len = 0;
        self.next_vacant_idx = INVALID_INDEX;
        self.non_optimized_count = 0;
        self.blocks = Ghost(Seq::empty());
        proof {
            assert(self@ =~= Seq::<Option<T>>::empty());
            lemma_aligned_zero(orig, bs);
        }
        Drain(
            IntoIter {
                entries: tmp,
                pos: 0,
                remaining: n,
                blocks: Ghost(bs),
                orig: Ghost(orig),
            },
        )
    }

}


/// A cursor over the entries of a [`SlabMap`], yielding `(key, value)`
/// pairs in increasing key order. On a run head it skips the whole vacant
/// run by arithmetic; interior slots of a run are never read.
pub struct Iter<'a, T> {
    entries: &'a [Entry<T>],
    pos: usize,
    remaining: usize,
    blocks: Ghost<Seq<Block>>,
}

impl<'a, T> View for Iter<'a, T> {
    type V = Seq<(usize, T)>;

    closed spec fn view(&self) -> Seq<(usize, T)> {
        pairs_from(view_of(self.entries@), self.pos as int)
    }
}

impl<'a, T> Iter<'a, T> {
    /// The cursor reads defined content: the blocks describe the slots, the
    /// position is never strictly inside a run, and the stored count is the
    /// number of pairs still to come.
    pub closed spec fn wf(self) -> bool {
        &&& blocks_ok(self.entries@, self.blocks@)
        &&& aligned(self.blocks@, self.pos as int)
        &&& self.pos <= self.entries@.len()
        &&& self.remaining == pairs_from(view_of(self.entries@), self.pos as int).len()
    }

    /// Yields the next `(key, value)` pair, or `None` when the walk is done.
    pub fn next(&mut self) -> (r: Option<(usize, &'a T)>)
        requires
            old(self).wf(),
        ensures
            final(self).wf(),
            old(self)@.len() == 0 ==> r is None && final(self)@ == old(self)@,
            old(self)@.len() > 0 ==> (r matches Some(p) && (p.0, *p.1) == old(self)@[0] && final(self)@ == old(self)@.drop_first()),
    {
        let entries: &'a [Entry<T>] = self.entries;
        let ghost v = view_of(entries@);
        let ghost bs = self.blocks@;
        while self.pos < entries.len()
            invariant
                self.entries == entries,
                entries == old(self).entries,
                old(self).pos <= entries@.len(),
                self.blocks@ == bs,
                self.remaining == pairs_from(v, self.pos as int).len(),
                blocks_ok(entries@, bs),
                aligned(bs, self.pos as int),
                self.pos <= entries@.len(),
                v == view_of(entries@),
                pairs_from(v, self.pos as int) == pairs_from(v, old(self).pos as int),
            decreases entries@.len() - self.pos,
        {
            let ghost p0 = self.pos as int;
            match &entries[self.pos] {
                Entry::Occupied(val) => {
                    proof {
                        lemma_aligned_step(entries@, bs, p0);
                        assert(pairs_from(v, p0) == seq![(self.pos, *val)] + pairs_from(
                            v,
                            p0 + 1,
                        ));
                        assert(pairs_from(v, p0)[0] == (self.pos, *val));
                        assert(pairs_from(v, p0).drop_first() =~= pairs_from(v, p0 + 1));
                    }
                    let k = self.pos;
                    self.pos = self.pos + 1;
                    self.remaining = self.remaining - 1;
                    return Some((k, val));
                },
                Entry::VacantHead { vacant_body_len } => {
                    proof {
                        lemma_aligned_step(entries@, bs, p0);
                        lemma_pairs_from_none_range(v, p0, p0 + *vacant_body_len + 2);
                    }
                    self.pos = self.pos + *vacant_body_len + 2;
                },
                Entry::VacantTail { .. } => {
                    proof {
                        lemma_aligned_step(entries@, bs, p0);
                    }
                    self.pos = self.pos + 1;
                },
            }
        }
        None
    }

    /// The exact number of pairs still to come; O(1).
    pub fn count(&self) -> (r: usize)
        requires
            self.wf(),
        ensures
            r == self@.len(),
    {
        self.remaining
    }
}

/// A cursor over the keys of a [`SlabMap`], in increasing order.
pub struct Keys<'a, T>(Iter<'a, T>);

impl<'a, T> View for Keys<'a, T> {
    type V = Seq<(usize, T)>;

    closed spec fn view(&self) -> Seq<(usize, T)> {
        self.0@
    }
}

impl<'a, T> Keys<'a, T> {
    pub closed spec fn wf(self) -> bool {
        self.0.wf()
    }

    /// Yields the next key, or `None` when the walk is done.
    pub fn next(&mut self) -> (r: Option<usize>)
        requires
            old(self).wf(),
        ensures
            final(self).wf(),
            old(self)@.len() == 0 ==> r is None && final(self)@ == old(self)@,
            old(self)@.len() > 0 ==> (r == Some(old(self)@[0].0) && final(self)@ == old(self)@.drop_first()),
    {
        match self.0.next() {
            Some((k, _)) => Some(k),
            None => None,
        }
    }

    /// The exact number of keys still to come; O(1).
    pub fn count(&self) -> (r: usize)
        requires
            self.wf(),
        ensures
            r == self@.len(),
    {
        self.0.count()
    }
}

/// A cursor over the values of a [`SlabMap`], in increasing key order.
pub struct Values<'a, T>(Iter<'a, T>);

impl<'a, T> View for Values<'a, T> {
    type V = Seq<(usize, T)>;

    closed spec fn view(&self) -> Seq<(usize, T)> {
        self.0@
    }
}

impl<'a, T> Values<'a, T> {
    pub closed spec fn wf(self) -> bool {
        self.0.wf()
    }

    /// Yields the next value, or `None` when the walk is done.
    pub fn next(&mut self) -> (r: Option<&'a T>)
        requires
            old(self).wf(),
        ensures
            final(self).wf(),
            old(self)@.len() == 0 ==> r is None && final(self)@ == old(self)@,
            old(self)@.len() > 0 ==> (r matches Some(v) && *v == old(self)@[0].1 && final(self)@ == old(self)@.drop_first()),
    {
        match self.0.next() {
            Some((_, v)) => Some(v),
            None => None,
        }
    }

    /// The exact number of values still to come; O(1).
    pub fn count(&self) -> (r: usize)
        requires
            self.wf(),
        ensures
            r == self@.len(),
    {
        self.0.count()
    }
}

/// An owning cursor over the entries of a [`SlabMap`], yielding
/// `(key, value)` pairs in increasing key order.
pub struct IntoIter<T> {
    entries: Vec<Entry<T>>,
    pos: usize,
    remaining: usize,
    blocks: Ghost<Seq<Block>>,
    orig: Ghost<Seq<Entry<T>>>,
}

impl<T> View for IntoIter<T> {
    type V = Seq<(usize, T)>;

    closed spec fn view(&self) -> Seq<(usize, T)> {
        pairs_from(view_of(self.orig@), self.pos as int)
    }
}

impl<T> IntoIter<T> {
    /// The walk data: the blocks describe the slots the container held when
    /// iteration began, the slots still to visit are unchanged, and the
    /// stored count is the number of pairs still to come.
    pub closed spec fn wf(self) -> bool {
        &&& blocks_ok(self.orig@, self.blocks@)
        &&& aligned(self.blocks@, self.pos as int)
        &&& self.pos <= self.orig@.len()
        &&& self.entries@.len() == self.orig@.len()
        &&& (forall|j: int| self.pos <= j < self.orig@.len() ==> self.entries@[j] == self.orig@[j])
        &&& self.remaining == pairs_from(view_of(self.orig@), self.pos as int).len()
    }

    /// Yields the next `(key, value)` pair, moving the value out, or `None`
    /// when the walk is done.
    pub fn next(&mut self) -> (r: Option<(usize, T)>)
        requires
            old(self).wf(),
        ensures
            final(self).wf(),
            old(self)@.len() == 0 ==> r is None && final(self)@ == old(self)@,
            old(self)@.len() > 0 ==> (r matches Some(p) && p == old(self)@[0] && final(self)@
                == old(self)@.drop_first()),
    {
        let ghost v = view_of(self.orig@);
        let ghost bs = self.blocks@;
        let ghost orig = self.orig@;
        while self.pos < self.entries.len()
            invariant
                self.orig@ == orig,
                orig == old(self).orig@,
                old(self).pos <= orig.len(),
                self.blocks@ == bs,
                self.remaining == pairs_from(v, self.pos as int).len(),
                blocks_ok(orig, bs),
                aligned(bs, self.pos as int),
                self.pos <= orig.len(),
                self.entries@.len() == orig.len(),
                forall|j: int| self.pos <= j < orig.len() ==> self.entries@[j] == orig[j],
                v == view_of(orig),
                pairs_from(v, self.pos as int) == pairs_from(v, old(self).pos as int),
            decreases orig.len() - self.pos,
        {
            let ghost p0 = self.pos as int;
            proof {
                assert(self.entries@[p0] == orig[p0]);
            }
            match kind_of(&self.entries[self.pos]) {
                SlotKind::Full => {
                    proof {
                        lemma_aligned_step(orig, bs, p0);
                        assert(v[p0] == Some(orig[p0]->Occupied_0));
                        assert(pairs_from(v, p0) == seq![(self.pos, orig[p0]->Occupied_0)]
                            + pairs_from(v, p0 + 1));
                        assert(pairs_from(v, p0)[0] == (self.pos, orig[p0]->Occupied_0));
                        assert(pairs_from(v, p0).drop_first() =~= pairs_from(v, p0 + 1));
                    }
                    let mut tmp = Entry::VacantTail { next_vacant_idx: INVALID_INDEX };
                    self.entries.set_and_swap(self.pos, &mut tmp);
                    let k = self.pos;
                    self.pos = self.pos + 1;
                    self.remaining = self.remaining - 1;
                    match tmp {
                        Entry::Occupied(x) => {
                            return Some((k, x));
                        },
                        _ => {
                            return unreached();
                        },
                    }
                },
                SlotKind::Head(bl) => {
                    proof {
                        lemma_aligned_step(orig, bs, p0);
                        lemma_pairs_from_none_range(v, p0, p0 + bl + 2);
                    }
                    self.pos = self.pos + bl + 2;
                },
                SlotKind::Tail(_) => {
                    proof {
                        lemma_aligned_step(orig, bs, p0);
                    }
                    self.pos = self.pos + 1;
                },
            }
        }
        None
    }

    /// The exact number of pairs still to come; O(1).
    pub fn count(&self) -> (r: usize)
        requires
            self.wf(),
        ensures
            r == self@.len(),
    {
        self.remaining
    }
}

/// A draining cursor for a [`SlabMap`]: created by [`SlabMap::drain`], it
/// owns the store's former slots and yields the `(key, value)` pairs in
/// increasing key order.
pub struct Drain<T>(IntoIter<T>);

impl<T> View for Drain<T> {
    type V = Seq<(usize, T)>;

    closed spec fn view(&self) -> Seq<(usize, T)> {
        self.0@
    }
}

impl<T> Drain<T> {
    pub closed spec fn wf(self) -> bool {
        self.0.wf()
    }

    /// Yields the next drained `(key, value)` pair, or `None` when done.
    pub fn next(&mut self) -> (r: Option<(usize, T)>)
        requires
            old(self).wf(),
        ensures
            final(self).wf(),
            old(self)@.len() == 0 ==> r is None && final(self)@ == old(self)@,
            old(self)@.len() > 0 ==> (r matches Some(p) && p == old(self)@[0] && final(self)@
                == old(self)@.drop_first()),
    {
        self.0.next()
    }

    /// The exact number of pairs still to come; O(1).
    pub fn count(&self) -> (r: usize)
        requires
            self.wf(),
        ensures
            r == self@.len(),
    {
        self.0.count()
    }
}


/// A cursor over the entries of a [`SlabMap`] that lends out mutable
/// references to the values, in increasing key order. Vacant runs are
/// skipped by arithmetic; interior slots of a run are never read.
pub struct IterMut<'a, T> {
    rest: &'a mut [Entry<T>],
    off: usize,
    remaining: usize,
    blocks: Ghost<Seq<Block>>,
    orig: Ghost<Seq<Entry<T>>>,
}

impl<'a, T> View for IterMut<'a, T> {
    type V = Seq<(usize, T)>;

    closed spec fn view(&self) -> Seq<(usize, T)> {
        pairs_from(view_of(self.orig@), self.off as int)
    }
}

impl<'a, T> IterMut<'a, T> {
    /// The walk data: the blocks describe the slots the store held when the
    /// walk began, the borrowed remainder still agrees with them, and the
    /// stored count is the number of pairs still to come.
    pub closed spec fn wf(self) -> bool {
        &&& blocks_ok(self.orig@, self.blocks@)
        &&& aligned(self.blocks@, self.off as int)
        &&& self.orig@.len() <= usize::MAX
        &&& self.off + self.rest@.len() == self.orig@.len()
        &&& (forall|j: int| 0 <= j < self.rest@.len() ==> self.rest@[j] == self.orig@[self.off + j])
        &&& self.remaining == pairs_from(view_of(self.orig@), self.off as int).len()
    }

    /// Yields the next key together with a mutable reference to its value,
    /// or `None` when the walk is done.
    pub fn next(&mut self) -> (r: Option<(usize, &'a mut T)>)
        requires
            old(self).wf(),
        ensures
            final(self).wf(),
            old(self)@.len() == 0 ==> r is None && final(self)@ == old(self)@,
            old(self)@.len() > 0 ==> (r matches Some(p) && p.0 == old(self)@[0].0 && *p.1 == old(self)@[0].1 && final(self)@ == old(self)@.drop_first()),
    {
        let ghost orig = self.orig@;
        let ghost bs = self.blocks@;
        let ghost v = view_of(orig);
        loop
            invariant
                self.orig@ == orig,
                orig == old(self).orig@,
                orig.len() <= usize::MAX,
                old(self).off <= orig.len(),
                self.blocks@ == bs,
                blocks_ok(orig, bs),
                aligned(bs, self.off as int),
                self.off + self.rest@.len() == orig.len(),
                forall|j: int| 0 <= j < self.rest@.len() ==> self.rest@[j] == orig[self.off + j],
                v == view_of(orig),
                self.remaining == pairs_from(v, self.off as int).len(),
                pairs_from(v, self.off as int) == pairs_from(v, old(self).off as int),
            decreases self.rest@.len(),
        {
            let ghost p0 = self.off as int;
            if self.rest.len() == 0 {
                return None;
            }
            proof {
                assert(self.rest@[0] == orig[p0]);
            }
            let ghost rest0 = self.rest@;
            let mut taken: &'a mut [Entry<T>] = &mut [];
            core::mem::swap(&mut self.rest, &mut taken);
            proof {
                assert(taken@ == rest0);
                assert(taken@.len() == orig.len() - p0);
                assert forall|j: int| 0 <= j < taken@.len() implies taken@[j] == orig[p0 + j] by {}
                assert(taken@[0] == orig[p0]);
            }
            match kind_of(&taken[0]) {
                SlotKind::Full => {
                    proof {
                        lemma_aligned_step(orig, bs, p0);
                        assert(v[p0] == Some(orig[p0]->Occupied_0));
                        assert(pairs_from(v, p0) == seq![
                            ((self.off, orig[p0]->Occupied_0)),
                        ] + pairs_from(v, p0 + 1));
                        assert(pairs_from(v, p0)[0] == (self.off, orig[p0]->Occupied_0));
                        assert(pairs_from(v, p0).drop_first() =~= pairs_from(v, p0 + 1));
                    }
                    let (one, rem) = taken.split_at_mut(1);
                    let k = self.off;
                    self.rest = rem;
                    self.off = self.off + 1;
                    self.remaining = self.remaining - 1;
                    match one.first_mut() {
                        Some(e) => {
                            match e {
                                Entry::Occupied(val) => {
                                    return Some((k, val));
                                },
                                _ => {
                                    return unreached();
                                },
                            }
                        },
                        None => {
                            return unreached();
                        },
                    }
                },
                SlotKind::Head(bl) => {
                    proof {
                        lemma_aligned_step(orig, bs, p0);
                        lemma_pairs_from_none_range(v, p0, p0 + bl + 2);
                    }
                    let (_skip, rem) = taken.split_at_mut(bl + 2);
                    self.rest = rem;
                    self.off = self.off + bl + 2;
                },
                SlotKind::Tail(_) => {
                    proof {
                        lemma_aligned_step(orig, bs, p0);
                    }
                    let (_skip, rem) = taken.split_at_mut(1);
                    self.rest = rem;
                    self.off = self.off + 1;
                },
            }
        }
    }

    /// The exact number of pairs still to come; O(1).
    pub fn count(&self) -> (r: usize)
        requires
            self.wf(),
        ensures
            r == self@.len(),
    {
        self.remaining
    }
}

/// A cursor over the values of a [`SlabMap`] that lends out mutable
/// references, in increasing key order.
pub struct ValuesMut<'a, T>(IterMut<'a, T>);

impl<'a, T> View for ValuesMut<'a, T> {
    type V = Seq<(usize, T)>;

    closed spec fn view(&self) -> Seq<(usize, T)> {
        self.0@
    }
}

impl<'a, T> ValuesMut<'a, T> {
    pub closed spec fn wf(self) -> bool {
        self.0.wf()
    }

    /// Yields a mutable reference to the next value, or `None` when done.
    pub fn next(&mut self) -> (r: Option<&'a mut T>)
        requires
            old(self).wf(),
        ensures
            final(self).wf(),
            old(self)@.len() == 0 ==> r is None && final(self)@ == old(self)@,
            old(self)@.len() > 0 ==> (r matches Some(p) && *p == old(self)@[0].1 && final(self)@
                == old(self)@.drop_first()),
    {
        match self.0.next() {
            Some((_, val)) => Some(val),
            None => None,
        }
    }

    /// The exact number of values still to come; O(1).
    pub fn count(&self) -> (r: usize)
        requires
            self.wf(),
        ensures
            r == self@.len(),
    {
        self.0.count()
    }
}

} // verus!

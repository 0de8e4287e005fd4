//! A variant of the slot store that avoids heap allocation while the number
//! of elements stays at or below a fixed threshold `N`: values live in an
//! inline table of `N` optional cells until an operation would exceed the
//! threshold, at which point every entry is moved into a freshly built
//! heap-backed store at its original key. Promotion is one-way.
use vstd::prelude::*;
use vstd::pervasive::unreached;
use vstd::pervasive::VecAdditionalExecFns;

use crate::slab_map::SlabMap;
use crate::slab_map::retain_rel;
use crate::table::count_prefix;
use crate::table::first_none;
use crate::table::inserted;
use crate::table::lemma_count_full;
use crate::table::lemma_count_prefix_congruent;
use crate::table::lemma_first_none_char;
use crate::table::lemma_pairs_from_all_some;
use crate::table::lemma_pairs_from_contains;
use crate::table::lemma_pairs_from_len_le;
use crate::table::lemma_pairs_from_len_lt;
use crate::table::lemma_pairs_from_len_update;
use crate::table::lemma_pairs_from_none_range;
use crate::table::lemma_table_of_len_bound;
use crate::table::lemma_table_set_lookup;
use crate::table::lemma_trim_nones;
use crate::table::lookup;
use crate::table::pairs_from;
use crate::table::pairs_of;
use crate::table::table_of;
use crate::table::table_set;
use crate::table::trim_nones;

verus! {

/// The two storage states of the hybrid: a fixed inline table of optional
/// cells with an element count, or a promoted heap-backed store.
#[derive(Clone)]
enum Data<T> {
    Inline { len: usize, items: Vec<Option<T>> },
    Heap(SlabMap<T>),
}

/// A slot container like [`SlabMap`] that stores up to `N` elements inline
/// without heap allocation. Keys assigned while inline stay valid and
/// unchanged after promotion to the heap-backed form.
#[derive(Clone)]
pub struct SmallSlabMap<T, const N: usize>(Option<Data<T>>);

impl<T, const N: usize> View for SmallSlabMap<T, N> {
    type V = Seq<Option<T>>;

    closed spec fn view(&self) -> Seq<Option<T>> {
        match self.0 {
            Option::None => Seq::empty(),
            Option::Some(Data::Inline { len: _, items }) => items@,
            Option::Some(Data::Heap(m)) => m@,
        }
    }
}

impl<T, const N: usize> SmallSlabMap<T, N> {
    /// The container's internal invariant: an inline table always has
    /// exactly `N` cells and a correct element count; a promoted store is
    /// well formed.
    pub closed spec fn wf(self) -> bool {
        match self.0 {
            Option::None => true,
            Option::Some(Data::Inline { len, items }) => items@.len() == N && len == pairs_of(
                items@,
            ).len(),
            Option::Some(Data::Heap(m)) => m.wf(),
        }
    }

    /// Whether the container has been promoted to the heap-backed form.
    pub closed spec fn spec_is_heap(self) -> bool {
        self.0 matches Option::Some(Data::Heap(_))
    }

    /// The value at `key`: `None` when the key is out of range or vacant.
    #[verifier::inline]
    pub open spec fn spec_get(self, key: usize) -> Option<T> {
        lookup(self@, key)
    }

    /// The key the next insertion will hand out.
    pub closed spec fn spec_next_key(self) -> usize {
        match self.0 {
            Option::None => 0,
            Option::Some(Data::Inline { len: _, items }) => if pairs_of(items@).len() < N {
                first_none(items@, 0) as usize
            } else {
                N
            },
            Option::Some(Data::Heap(m)) => m.spec_next_key(),
        }
    }

    /// The number of elements the map can hold without reallocating:
    /// exactly the inline threshold while inline, the tracked backing
    /// capacity once promoted.
    pub closed spec fn spec_capacity(self) -> nat {
        match self.0 {
            Option::Some(Data::Heap(m)) => m.spec_capacity(),
            _ => N as nat,
        }
    }

    /// A well-formed container's table never exceeds its capacity.
    pub proof fn lemma_capacity_bound(self)
        requires
            self.wf(),
        ensures
            self@.len() <= self.spec_capacity(),
    {
        match self.0 {
            Option::Some(Data::Heap(m)) => {
                m.lemma_capacity_bound();
            },
            _ => {},
        }
    }

    /// The table of a well-formed container always fits the machine.
    pub proof fn lemma_len_bound(self)
        requires
            self.wf(),
        ensures
            self@.len() <= usize::MAX,
    {
        match self.0 {
            Option::Some(Data::Heap(m)) => {
                m.lemma_table_len_bound();
            },
            _ => {},
        }
    }

    /// The next key an inline table hands out is its first vacant cell.
    proof fn lemma_inline_next_key(v: Seq<Option<T>>)
        requires
            v.len() == N as int,
        ensures
            (if pairs_of(v).len() < N {
                first_none(v, 0)
            } else {
                N as int
            }) == first_none(v, 0),
    {
        lemma_pairs_from_len_le(v, 0);
        if pairs_of(v).len() >= N {
            assert forall|i2: int| 0 <= i2 < v.len() implies v[i2] is Some by {
                if v[i2] is None {
                    lemma_pairs_from_len_lt(v, 0, i2);
                }
            }
            lemma_first_none_char(v, v.len() as int);
        }
    }

    /// While not promoted, the next key to hand out is the first vacant
    /// position of the table.
    proof fn lemma_next_key_is_first_none(self)
        requires
            !self.spec_is_heap(),
            self.0 matches Option::Some(Data::Inline { len, items }) ==> items@.len() == N,
        ensures
            self.spec_next_key() == first_none(self@, 0),
    {
        match self.0 {
            Option::None => {
                assert(first_none(self@, 0) == 0);
            },
            Option::Some(Data::Inline { len: _, items }) => {
                crate::table::lemma_first_none_props(items@);
                Self::lemma_inline_next_key(items@);
            },
            Option::Some(Data::Heap(_)) => {},
        }
    }

    /// A fresh inline table: `N` vacant cells.
    fn blank_items() -> (r: Vec<Option<T>>)
        ensures
            r@.len() == N,
            forall|j: int| 0 <= j < N ==> r@[j] is None,
    {
        let mut items: Vec<Option<T>> = Vec::new();
        let mut j: usize = 0;
        while j < N
            invariant
                j <= N,
                items@.len() == j,
                forall|m: int| 0 <= m < j ==> items@[m] is None,
            decreases N - j,
        {
            items.push(None);
            j = j + 1;
        }
        items
    }

    /// Constructs a new, empty `SmallSlabMap<T, N>`. No allocation happens
    /// until elements are inserted.
    pub fn new() -> (r: Self)
        ensures
            r.wf(),
            r@ == Seq::<Option<T>>::empty(),
            !r.spec_is_heap(),
            r.spec_next_key() == 0,
            r.spec_capacity() == N,
    {
        SmallSlabMap(None)
    }

    /// Constructs a new, empty `SmallSlabMap<T, N>` with at least the given
    /// capacity; a request above the inline threshold promotes immediately.
    pub fn with_capacity(capacity: usize) -> (r: Self)
        ensures
            r.wf(),
            pairs_of(r@).len() == 0,
            forall|key: usize| r.spec_get(key) is None,
            r.spec_is_heap() <==> capacity > N,
            r.spec_next_key() == 0,
            r@.len() == 0,
            r.spec_capacity() >= capacity,
    {
        if capacity <= N {
            SmallSlabMap(None)
        } else {
            let m = SlabMap::with_capacity(capacity);
            proof {
                m.lemma_full_next_key();
            }
            SmallSlabMap(Some(Data::Heap(m)))
        }
    }

    /// The number of slots of the table, occupied or vacant.
    pub fn table_len(&self) -> (r: usize)
        ensures
            r == self@.len(),
    {
        match &self.0 {
            None => 0,
            Some(Data::Inline { len: _, items }) => items.len(),
            Some(Data::Heap(m)) => m.table_len(),
        }
    }

    /// Returns the number of elements in the map.
    pub fn len(&self) -> (r: usize)
        requires
            self.wf(),
        ensures
            r == pairs_of(self@).len(),
    {
        match &self.0 {
            None => 0,
            Some(Data::Inline { len, .. }) => *len,
            Some(Data::Heap(m)) => m.len(),
        }
    }

    /// Returns true if the map contains no elements.
    pub fn is_empty(&self) -> (r: bool)
        requires
            self.wf(),
        ensures
            r == (pairs_of(self@).len() == 0),
    {
        self.len() == 0
    }

    /// Returns a reference to the value corresponding to the key.
    pub fn get(&self, key: usize) -> (r: Option<&T>)
        ensures
            r matches Some(v) ==> self.spec_get(key) == Some(*v),
            r is None ==> self.spec_get(key) is None,
    {
        match &self.0 {
            None => None,
            Some(Data::Inline { len: _, items }) => {
                if key < items.len() {
                    match &items[key] {
                        Some(v) => Some(v),
                        None => None,
                    }
                } else {
                    None
                }
            },
            Some(Data::Heap(m)) => m.get(key),
        }
    }

    /// Returns true if the map holds a value for the key.
    pub fn contains_key(&self, key: usize) -> (r: bool)
        ensures
            r == (self.spec_get(key) is Some),
    {
        self.get(key).is_some()
    }

    /// Returns a mutable reference to the value corresponding to the key.
    pub fn get_mut(&mut self, key: usize) -> (r: Option<&mut T>)
        requires
            old(self).wf(),
        ensures
            old(self).spec_get(key) is None ==> r is None && final(self)@ == old(self)@ && final(self).wf(),
            old(self).spec_get(key) matches Some(x) ==> (r matches Some(v) && *v == x && final(self)@ == old(self)@.update(key as int, Some(*final(v))) && final(self).wf()),
            final(self).spec_capacity() == old(self).spec_capacity(),
            !final(self).spec_is_heap() ==> final(self).spec_next_key() == first_none(
                final(self)@,
                0,
            ) && final(self).spec_next_key() == old(self).spec_next_key(),
    {
        proof {
            if !old(self).spec_is_heap() {
                old(self).lemma_next_key_is_first_none();
            }
        }
        match &mut self.0 {
            None => None,
            Some(Data::Inline { len: _, items }) => {
                if key < items.len() {
                    match &items[key] {
                        Some(_) => {},
                        None => {
                            return None;
                        },
                    }
                    let ghost items0 = items@;
                    proof {
                        assert forall|fv: T|
                            pairs_of(items0.update(key as int, Some(fv))).len() == pairs_of(
                                items0,
                            ).len() by {
                            lemma_pairs_from_len_update(items0, 0, key as int, Some(fv));
                        }
                        crate::table::lemma_first_none_props(items0);
                        let m0 = first_none(items0, 0);
                        assert forall|fv: T|
                            first_none(items0.update(key as int, Some(fv)), 0) == m0 by {
                            let u = items0.update(key as int, Some(fv));
                            assert forall|i2: int| 0 <= i2 < m0 implies u[i2] is Some by {
                                assert(items0[i2] is Some);
                            }
                            if m0 < u.len() {
                                assert(items0[m0] is None);
                                assert(m0 != key);
                                assert(u[m0] is None);
                            }
                            lemma_first_none_char(u, m0);
                        }
                        assert forall|fv: T|
                            (if pairs_of(items0.update(key as int, Some(fv))).len() < N {
                                first_none(items0.update(key as int, Some(fv)), 0)
                            } else {
                                N as int
                            }) == first_none(items0.update(key as int, Some(fv)), 0) by {
                            Self::lemma_inline_next_key(items0.update(key as int, Some(fv)));
                        }
                    }
                    let e = &mut items[key];
                    match e {
                        Some(v) => Some(v),
                        None => unreached(),
                    }
                } else {
                    None
                }
            },
            Some(Data::Heap(m)) => m.get_mut(key),
        }
    }

    /// Moves every inline entry into a freshly built heap-backed store at
    /// its original key and switches to it for good. The promoted store
    /// drops only trailing vacant cells, so every lookup and the next key to
    /// hand out are unchanged.
    fn promote(&mut self)
        requires
            old(self).wf(),
        ensures
            final(self).wf(),
            final(self).spec_is_heap(),
            old(self).spec_is_heap() ==> final(self)@ == old(self)@ && final(self).spec_capacity() == old(self).spec_capacity(),
            !old(self).spec_is_heap() ==> final(self)@ == trim_nones(old(self)@),
            forall|key: usize| final(self).spec_get(key) == old(self).spec_get(key),
            pairs_of(final(self)@).len() == pairs_of(old(self)@).len(),
            final(self).spec_next_key() == old(self).spec_next_key(),
    {
        let mut data: Option<Data<T>> = None;
        core::mem::swap(&mut self.0, &mut data);
        match data {
            None => {
                let m = SlabMap::<T>::new();
                proof {
                    m.lemma_full_next_key();
                    assert(trim_nones(old(self)@) =~= Seq::<Option<T>>::empty());
                }
                self.0 = Some(Data::Heap(m));
            },
            Some(Data::Heap(m)) => {
                self.0 = Some(Data::Heap(m));
            },
            Some(Data::Inline { len: _, mut items }) => {
                let ghost items0 = items@;
                let mut m = SlabMap::<T>::new();
                proof {
                    m.lemma_empty_no_heads();
                    assert(m@ =~= trim_nones(items0.subrange(0, 0)));
                }
                let n = items.len();
                let mut j: usize = 0;
                while j < n
                    invariant
                        n == items@.len(),
                        items0.len() == n,
                        n <= usize::MAX,
                        j <= n,
                        forall|i2: int| j <= i2 < n ==> items@[i2] == items0[i2],
                        m@ == trim_nones(items0.subrange(0, j as int)),
                        m.no_heads(),
                        m@.len() <= m.spec_capacity(),
                    decreases n - j,
                {
                    let ghost pre = items0.subrange(0, j as int);
                    let mut tmp: Option<T> = None;
                    items.set_and_swap(j, &mut tmp);
                    match tmp {
                        Some(x) => {
                            proof {
                                assert(items0[j as int] == Some(x));
                                lemma_trim_nones(pre);
                            }
                            m.set(j, x);
                            proof {
                                let pre1 = items0.subrange(0, j + 1);
                                assert(pre1.drop_last() =~= pre);
                                assert(pre1.last() == Some(x));
                                assert(m@ == table_set(trim_nones(pre), j, x));
                                assert(m@ =~= pre1) by {
                                    assert forall|i2: int| 0 <= i2 < pre1.len() implies m@[i2]
                                        == pre1[i2] by {
                                        if i2 < trim_nones(pre).len() {
                                            assert(trim_nones(pre)[i2] == pre[i2]);
                                        } else if i2 < j {
                                            assert(pre[i2] is None);
                                        }
                                    }
                                }
                                assert(trim_nones(pre1) == pre1);
                            }
                        },
                        None => {
                            proof {
                                assert(items0[j as int] is None);
                                let pre1 = items0.subrange(0, j + 1);
                                assert(pre1.drop_last() =~= pre);
                                assert(pre1.last() is None);
                                assert(trim_nones(pre1) == trim_nones(pre1.drop_last()));
                                assert(trim_nones(pre1) == trim_nones(pre));
                            }
                        },
                    }
                    j = j + 1;
                }
                proof {
                    assert(items0.subrange(0, n as int) =~= items0);
                    m.lemma_no_heads_rebuild_safe();
                }
                m.rebuild_vacants();
                proof {
                    let t = trim_nones(items0);
                    lemma_trim_nones(items0);
                    assert(trim_nones(t) == t) by {
                        if t.len() > 0 {
                            assert(t.last() is Some);
                        }
                    }
                    assert(m@ == t);
                    // the first vacant position survives trimming
                    let fnt = first_none(t, 0);
                    crate::table::lemma_first_none_props(t);
                    assert(m.spec_next_key() == fnt);
                    assert(first_none(items0, 0) == fnt) by {
                        if fnt < t.len() {
                            assert(t[fnt] is None);
                            assert forall|i2: int| 0 <= i2 < fnt implies items0[i2] is Some by {
                                assert(t[i2] == items0[i2]);
                            }
                            assert(items0[fnt] == t[fnt]);
                            lemma_first_none_char(items0, fnt);
                        } else {
                            assert forall|i2: int| 0 <= i2 < t.len() implies items0[i2]
                                is Some by {
                                assert(t[i2] == items0[i2]);
                            }
                            if t.len() < items0.len() {
                                assert(items0[t.len() as int] is None);
                            }
                            lemma_first_none_char(items0, t.len() as int);
                        }
                    }
                    // the old inline formula is that same first vacant position
                    crate::table::lemma_first_none_props(items0);
                    assert(old(self).spec_next_key() == first_none(items0, 0)) by {
                        if pairs_of(items0).len() >= N {
                            assert forall|i2: int| 0 <= i2 < items0.len() implies items0[i2]
                                is Some by {
                                if items0[i2] is None {
                                    lemma_pairs_from_len_lt(items0, 0, i2);
                                }
                            }
                            lemma_first_none_char(items0, items0.len() as int);
                        }
                    }
                }
                self.0 = Some(Data::Heap(m));
            },
        }
    }
    /// Returns the number of elements the map can hold without reallocating:
    /// exactly the inline threshold while inline, the backing capacity once
    /// promoted.
    pub fn capacity(&self) -> (r: usize)
        requires
            self.wf(),
        ensures
            r == self.spec_capacity(),
            !self.spec_is_heap() ==> r == N,
            r >= pairs_of(self@).len(),
    {
        proof {
            lemma_pairs_from_len_le(self@, 0);
        }
        match &self.0 {
            None => N,
            Some(Data::Inline { .. }) => N,
            Some(Data::Heap(m)) => {
                proof {
                    lemma_pairs_from_len_le(m@, 0);
                }
                m.capacity()
            },
        }
    }

    /// Tries to reserve capacity for `additional` more elements. While the
    /// total stays at or below the inline threshold this is free; otherwise
    /// the container promotes (for good) and reserves on the heap store.
    pub fn try_reserve(&mut self, additional: usize) -> (r: Result<
        (),
        std::collections::TryReserveError,
    >)
        requires
            old(self).wf(),
        ensures
            final(self).wf(),
            forall|key: usize| final(self).spec_get(key) == old(self).spec_get(key),
            pairs_of(final(self)@).len() == pairs_of(old(self)@).len(),
            final(self).spec_next_key() == old(self).spec_next_key(),
            final(self).spec_is_heap() <==> (old(self).spec_is_heap() || pairs_of(old(self)@).len() + additional > N),
            old(self).spec_is_heap() ==> final(self)@ == old(self)@,
            !old(self).spec_is_heap() && pairs_of(old(self)@).len() + additional <= N ==> final(self)@ == old(self)@,
            !old(self).spec_is_heap() && pairs_of(old(self)@).len() + additional > N ==> final(self)@ == trim_nones(old(self)@),
            !old(self).spec_is_heap() && pairs_of(old(self)@).len() + additional <= N ==> r
                is Ok,
            old(self).spec_is_heap() && pairs_of(old(self)@).len() + additional <= old(self)@.len() ==> r is Ok,
            r is Ok ==> final(self).spec_capacity() >= pairs_of(final(self)@).len()
                + additional,
            old(self).spec_is_heap() ==> final(self).spec_capacity() >= old(self).spec_capacity() && (pairs_of(old(self)@).len() + additional <= old(self)@.len()
                ==> final(self).spec_capacity() == old(self).spec_capacity()) && (pairs_of(old(self)@).len() + additional <= old(self).spec_capacity() ==> final(self).spec_capacity()
                == old(self).spec_capacity()),
            !final(self).spec_is_heap() ==> final(self).spec_capacity() == N,
    {
        let is_h = match &self.0 {
            Some(Data::Heap(_)) => true,
            _ => false,
        };
        let l = self.len();
        if !is_h && additional <= N && l <= N - additional {
            Ok(())
        } else {
            self.promote();
            match &mut self.0 {
                Some(Data::Heap(m)) => m.try_reserve(additional),
                _ => unreached(),
            }
        }
    }

    /// Reserves capacity for `additional` more elements, promoting first
    /// when the total would exceed the inline threshold.
    pub fn reserve(&mut self, additional: usize)
        requires
            old(self).wf(),
        ensures
            final(self).wf(),
            forall|key: usize| final(self).spec_get(key) == old(self).spec_get(key),
            pairs_of(final(self)@).len() == pairs_of(old(self)@).len(),
            final(self).spec_next_key() == old(self).spec_next_key(),
            final(self).spec_is_heap() <==> (old(self).spec_is_heap() || pairs_of(old(self)@).len() + additional > N),
            old(self).spec_is_heap() ==> final(self)@ == old(self)@,
            !old(self).spec_is_heap() && pairs_of(old(self)@).len() + additional <= N ==> final(self)@ == old(self)@,
            !old(self).spec_is_heap() && pairs_of(old(self)@).len() + additional > N ==> final(self)@ == trim_nones(old(self)@),
            final(self).spec_capacity() >= pairs_of(final(self)@).len() + additional,
            old(self).spec_is_heap() ==> final(self).spec_capacity() >= old(self).spec_capacity() && (pairs_of(old(self)@).len() + additional <= old(self)@.len()
                ==> final(self).spec_capacity() == old(self).spec_capacity()) && (pairs_of(old(self)@).len() + additional <= old(self).spec_capacity() ==> final(self).spec_capacity()
                == old(self).spec_capacity()),
            !final(self).spec_is_heap() ==> final(self).spec_capacity() == N,
    {
        let is_h = match &self.0 {
            Some(Data::Heap(_)) => true,
            _ => false,
        };
        let l = self.len();
        if !is_h && additional <= N && l <= N - additional {
        } else {
            self.promote();
            match &mut self.0 {
                Some(Data::Heap(m)) => m.reserve(additional),
                _ => unreached(),
            }
        }
    }

    /// Reserves the minimum capacity for exactly `additional` more elements,
    /// promoting first when the total would exceed the inline threshold.
    pub fn reserve_exact(&mut self, additional: usize)
        requires
            old(self).wf(),
        ensures
            final(self).wf(),
            forall|key: usize| final(self).spec_get(key) == old(self).spec_get(key),
            pairs_of(final(self)@).len() == pairs_of(old(self)@).len(),
            final(self).spec_next_key() == old(self).spec_next_key(),
            final(self).spec_is_heap() <==> (old(self).spec_is_heap() || pairs_of(old(self)@).len() + additional > N),
            final(self).spec_capacity() >= pairs_of(final(self)@).len() + additional,
            old(self).spec_is_heap() ==> final(self).spec_capacity() >= old(self).spec_capacity() && (pairs_of(old(self)@).len() + additional <= old(self)@.len()
                ==> final(self).spec_capacity() == old(self).spec_capacity()) && (pairs_of(old(self)@).len() + additional <= old(self).spec_capacity() ==> final(self).spec_capacity()
                == old(self).spec_capacity()),
            !final(self).spec_is_heap() ==> final(self).spec_capacity() == N,
    {
        let is_h = match &self.0 {
            Some(Data::Heap(_)) => true,
            _ => false,
        };
        let l = self.len();
        if !is_h && additional <= N && l <= N - additional {
        } else {
            self.promote();
            match &mut self.0 {
                Some(Data::Heap(m)) => m.reserve_exact(additional),
                _ => unreached(),
            }
        }
    }

    /// Tries to reserve the minimum capacity for exactly `additional` more
    /// elements, promoting first when the total would exceed the threshold.
    pub fn try_reserve_exact(&mut self, additional: usize) -> (r: Result<
        (),
        std::collections::TryReserveError,
    >)
        requires
            old(self).wf(),
        ensures
            final(self).wf(),
            forall|key: usize| final(self).spec_get(key) == old(self).spec_get(key),
            pairs_of(final(self)@).len() == pairs_of(old(self)@).len(),
            final(self).spec_next_key() == old(self).spec_next_key(),
            final(self).spec_is_heap() <==> (old(self).spec_is_heap() || pairs_of(old(self)@).len() + additional > N),
            !old(self).spec_is_heap() && pairs_of(old(self)@).len() + additional <= N ==> r
                is Ok,
            old(self).spec_is_heap() && pairs_of(old(self)@).len() + additional <= old(self)@.len() ==> r is Ok,
            r is Ok ==> final(self).spec_capacity() >= pairs_of(final(self)@).len()
                + additional,
            old(self).spec_is_heap() ==> final(self).spec_capacity() >= old(self).spec_capacity() && (pairs_of(old(self)@).len() + additional <= old(self)@.len()
                ==> final(self).spec_capacity() == old(self).spec_capacity()) && (pairs_of(old(self)@).len() + additional <= old(self).spec_capacity() ==> final(self).spec_capacity()
                == old(self).spec_capacity()),
            !final(self).spec_is_heap() ==> final(self).spec_capacity() == N,
    {
        let is_h = match &self.0 {
            Some(Data::Heap(_)) => true,
            _ => false,
        };
        let l = self.len();
        if !is_h && additional <= N && l <= N - additional {
            Ok(())
        } else {
            self.promote();
            match &mut self.0 {
                Some(Data::Heap(m)) => m.try_reserve_exact(additional),
                _ => unreached(),
            }
        }
    }

    /// Inserts the value built by `f` from the key it will be stored under,
    /// and returns that key. While inline, the first vacant cell is reused;
    /// an insertion beyond the threshold promotes first.
    pub fn insert_with_key<F: FnOnce(usize) -> T>(&mut self, f: F) -> (k: usize)
        requires
            old(self).wf(),
            call_requires(f, (old(self).spec_next_key(),)),
        ensures
            final(self).wf(),
            k == old(self).spec_next_key(),
            old(self).spec_get(k) is None,
            exists|x: T| #[trigger]
                call_ensures(f, (k,), x) && final(self).spec_get(k) == Some(x) && (forall|
                    j: usize,
                |
                    j != k ==> final(self).spec_get(j) == old(self).spec_get(j)) && final(self)@
                == (if old(self).spec_is_heap() {
                    inserted(old(self)@, k, x)
                } else if pairs_of(old(self)@).len() + 1 > N {
                    old(self)@.push(Some(x))
                } else if old(self)@.len() == 0 {
                    Seq::new(N as nat, |i: int| None::<T>).update(k as int, Some(x))
                } else {
                    old(self)@.update(k as int, Some(x))
                }),
            pairs_of(final(self)@).len() == pairs_of(old(self)@).len() + 1,
            old(self).spec_is_heap() ==> final(self).spec_is_heap(),
            final(self).spec_is_heap() <==> (old(self).spec_is_heap() || pairs_of(old(self)@).len() + 1 > N),
            !final(self).spec_is_heap() ==> final(self).spec_next_key() == first_none(
                final(self)@,
                0,
            ),
            !old(self).spec_is_heap() && final(self).spec_is_heap() ==> final(self).spec_next_key() == final(self)@.len(),
            old(self).spec_is_heap() && k >= old(self)@.len() ==> final(self).spec_next_key()
                == final(self)@.len(),
            old(self).spec_is_heap() ==> final(self).spec_capacity() >= old(self).spec_capacity() && (k < old(self)@.len() ==> final(self).spec_capacity() == old(self).spec_capacity()) && (final(self)@.len() <= old(self).spec_capacity() ==> final(self).spec_capacity() == old(self).spec_capacity()),
            !final(self).spec_is_heap() ==> final(self).spec_capacity() == N,
    {
        proof {
            if self.spec_is_heap() {
                self.lemma_capacity_bound();
                lemma_pairs_from_len_le(self@, 0);
            }
        }
        self.reserve(1);
        let k = match &mut self.0 {
            None => {
                proof {
                    assert(N >= 1);
                }
                let mut items = Self::blank_items();
                let x = f(0);
                items.set(0, Some(x));
                proof {
                    lemma_pairs_from_len_update(items@.update(0, None), 0, 0, items@[0]);
                    assert(items@.update(0, None) =~= Self::blank_ghost());
                    crate::table::lemma_pairs_from_none_range(
                        items@,
                        1,
                        items@.len() as int,
                    );
                }
                proof {
                    assert(items@ =~= Seq::new(N as nat, |i: int| None::<T>).update(
                        0,
                        Some(items@[0]->0),
                    ));
                    lemma_first_none_char(items@, 1);
                }
                self.0 = Some(Data::Inline { len: 1, items });
                0
            },
            Some(Data::Inline { len, items }) => {
                let ghost items0 = items@;
                proof {
                    assert(pairs_of(items0).len() < N);
                    crate::table::lemma_first_none_props(items0);
                    assert(first_none(items0, 0) < N) by {
                        if first_none(items0, 0) == items0.len() {
                            lemma_pairs_from_all_some(items0, 0);
                        }
                    }
                }
                let n = items.len();
                let mut j: usize = 0;
                let mut found: usize = 0;
                let mut have: bool = false;
                while j < n && !have
                    invariant
                        n == items@.len(),
                        items@ == items0,
                        j <= n,
                        !have ==> forall|i2: int| 0 <= i2 < j ==> items0[i2] is Some,
                        have ==> found < n && items0[found as int] is None && (forall|i2: int|
                            0 <= i2 < found ==> items0[i2] is Some),
                    decreases n - j + (if have { 0int } else { 1int }),
                {
                    match &items[j] {
                        None => {
                            found = j;
                            have = true;
                        },
                        Some(_) => {},
                    }
                    j = j + 1;
                }
                proof {
                    if !have {
                        lemma_pairs_from_all_some(items0, 0);
                    }
                    lemma_first_none_char(items0, found as int);
                }
                let x = f(found);
                items.set(found, Some(x));
                *len = *len + 1;
                proof {
                    lemma_pairs_from_len_update(items0, 0, found as int, Some(x));
                    assert(items@ =~= items0.update(found as int, Some(x)));
                    let c1 = pairs_of(items@).len();
                    if c1 == N {
                        assert forall|i2: int| 0 <= i2 < items@.len() implies items@[i2]
                            is Some by {
                            if items@[i2] is None {
                                lemma_pairs_from_len_lt(items@, 0, i2);
                            }
                        }
                        lemma_first_none_char(items@, items@.len() as int);
                    } else {
                        crate::table::lemma_first_none_props(items@);
                    }
                }
                found
            },
            Some(Data::Heap(m)) => {
                proof {
                    if !old(self).spec_is_heap() {
                        // promoted by the reservation: the inline table was full
                        assert(pairs_of(old(self)@).len() == N) by {
                            lemma_pairs_from_len_le(old(self)@, 0);
                        }
                        assert forall|i2: int|
                            0 <= i2 < old(self)@.len() implies old(self)@[i2] is Some by {
                            if old(self)@[i2] is None {
                                lemma_pairs_from_len_lt(old(self)@, 0, i2);
                            }
                        }
                        assert(m@ == trim_nones(old(self)@));
                        assert(trim_nones(old(self)@) == old(self)@) by {
                            if old(self)@.len() > 0 {
                                assert(old(self)@.last() is Some);
                            }
                        }
                        m.lemma_full_next_key();
                    }
                }
                m.insert_with_key(f)
            },
        };
        proof {
            if old(self).spec_is_heap() && (k as int) < old(self)@.len() {
                lemma_pairs_from_len_lt(old(self)@, 0, k as int);
            }
        }
        k
    }

    /// Inserts a value into the map and returns the key assigned to it.
    pub fn insert(&mut self, value: T) -> (k: usize)
        requires
            old(self).wf(),
        ensures
            final(self).wf(),
            k == old(self).spec_next_key(),
            old(self).spec_get(k) is None,
            final(self).spec_get(k) == Some(value),
            forall|j: usize| j != k ==> final(self).spec_get(j) == old(self).spec_get(j),
            final(self)@ == (if old(self).spec_is_heap() {
                inserted(old(self)@, k, value)
            } else if pairs_of(old(self)@).len() + 1 > N {
                old(self)@.push(Some(value))
            } else if old(self)@.len() == 0 {
                Seq::new(N as nat, |i: int| None::<T>).update(k as int, Some(value))
            } else {
                old(self)@.update(k as int, Some(value))
            }),
            pairs_of(final(self)@).len() == pairs_of(old(self)@).len() + 1,
            old(self).spec_is_heap() ==> final(self).spec_is_heap(),
            final(self).spec_is_heap() <==> (old(self).spec_is_heap() || pairs_of(old(self)@).len() + 1 > N),
            !final(self).spec_is_heap() ==> final(self).spec_next_key() == first_none(
                final(self)@,
                0,
            ),
            !old(self).spec_is_heap() && final(self).spec_is_heap() ==> final(self).spec_next_key() == final(self)@.len(),
            old(self).spec_is_heap() && k >= old(self)@.len() ==> final(self).spec_next_key()
                == final(self)@.len(),
            old(self).spec_is_heap() ==> final(self).spec_capacity() >= old(self).spec_capacity() && (k < old(self)@.len() ==> final(self).spec_capacity() == old(self).spec_capacity()) && (final(self)@.len() <= old(self).spec_capacity() ==> final(self).spec_capacity() == old(self).spec_capacity()),
            !final(self).spec_is_heap() ==> final(self).spec_capacity() == N,
    {
        let g = |key: usize| -> (res: T)
            ensures
                res == value,
            { value };
        let k = self.insert_with_key(g);
        proof {
            let x = choose|x: T| #[trigger]
                call_ensures(g, (k,), x) && self.spec_get(k) == Some(x) && (forall|j: usize|
                    j != k ==> self.spec_get(j) == old(self).spec_get(j));
            assert(x == value);
        }
        k
    }

    /// Removes the value at `key` and returns it, or returns `None` when
    /// the key is out of range or vacant.
    pub fn remove(&mut self, key: usize) -> (r: Option<T>)
        requires
            old(self).wf(),
        ensures
            final(self).wf(),
            r == old(self).spec_get(key),
            final(self).spec_get(key) is None,
            forall|j: usize| j != key ==> final(self).spec_get(j) == old(self).spec_get(j),
            old(self).spec_get(key) is None ==> final(self)@ == old(self)@,
            old(self).spec_get(key) is Some ==> pairs_of(final(self)@).len() == pairs_of(old(self)@).len() - 1,
            !old(self).spec_is_heap() && old(self).spec_get(key) is Some ==> final(self)@ == old(self)@.update(key as int, None),
            final(self).spec_is_heap() == old(self).spec_is_heap(),
            final(self).spec_capacity() == old(self).spec_capacity(),
            !final(self).spec_is_heap() ==> final(self).spec_next_key() == first_none(
                final(self)@,
                0,
            ),
    {
        let mut data: Option<Data<T>> = None;
        core::mem::swap(&mut self.0, &mut data);
        let r = match data {
            None => {
                self.0 = None;
                None
            },
            Some(Data::Inline { mut len, mut items }) => {
                let r: Option<T>;
                if key < items.len() {
                    let ghost items0 = items@;
                    let mut tmp: Option<T> = None;
                    items.set_and_swap(key, &mut tmp);
                    match tmp {
                        Some(x) => {
                            proof {
                                lemma_pairs_from_contains(items0, 0, (key, x));
                                lemma_pairs_from_len_update(items0, 0, key as int, None);
                            }
                            len = len - 1;
                            r = Some(x);
                        },
                        None => {
                            proof {
                                assert(items@ =~= items0);
                            }
                            r = None;
                        },
                    }
                } else {
                    r = None;
                }
                self.0 = Some(Data::Inline { len, items });
                r
            },
            Some(Data::Heap(mut m)) => {
                let r = m.remove(key);
                self.0 = Some(Data::Heap(m));
                r
            },
        };
        proof {
            if !self.spec_is_heap() {
                self.lemma_next_key_is_first_none();
            }
        }
        r
    }

    /// Removes all elements. The storage state (inline or promoted) is kept.
    pub fn clear(&mut self)
        requires
            old(self).wf(),
        ensures
            final(self).wf(),
            pairs_of(final(self)@).len() == 0,
            forall|key: usize| final(self).spec_get(key) is None,
            final(self).spec_is_heap() == old(self).spec_is_heap(),
            final(self).spec_next_key() == 0,
            final(self).spec_capacity() == old(self).spec_capacity(),
    {
        match &mut self.0 {
            None => {},
            Some(Data::Inline { len, items }) => {
                let n = items.len();
                let mut j: usize = 0;
                while j < n
                    invariant
                        n == items@.len(),
                        j <= n,
                        forall|i2: int| 0 <= i2 < j ==> items@[i2] is None,
                    decreases n - j,
                {
                    items.set(j, None);
                    j = j + 1;
                }
                *len = 0;
                proof {
                    lemma_pairs_from_none_range(items@, 0, items@.len() as int);
                    lemma_first_none_char(items@, 0);
                }
            },
            Some(Data::Heap(m)) => m.clear(),
        }
    }

    /// Keeps only the elements the predicate approves: it is applied to
    /// each occupied slot's key and value, in key order, exactly as on the
    /// heap-backed store. Once promoted, the pass also compacts the free
    /// space; while inline, keys and cells stay where they are.
    pub fn retain<F: Fn(usize, &T) -> bool>(&mut self, f: F)
        requires
            old(self).wf(),
            forall|j: usize, x: T|
                lookup(old(self)@, j) == Some(x) ==> #[trigger] call_requires(f, (j, &x)),
        ensures
            final(self).wf(),
            final(self).spec_is_heap() == old(self).spec_is_heap(),
            old(self).spec_is_heap() ==> final(self)@.len() <= old(self)@.len() && (forall|
                j: int,
            |
                0 <= j < final(self)@.len() ==> retain_rel(
                    f,
                    j,
                    old(self)@[j],
                    #[trigger] final(self)@[j],
                )) && (forall|j: int|
                final(self)@.len() <= j < old(self)@.len() ==> (#[trigger] old(self)@[j]
                    is Some ==> call_ensures(f, (j as usize, &old(self)@[j]->0), false))) && (
            final(self)@.len() > 0 ==> final(self)@.last() is Some),
            !old(self).spec_is_heap() ==> final(self)@.len() == old(self)@.len() && (forall|
                j: int,
            |
                0 <= j < final(self)@.len() ==> retain_rel(
                    f,
                    j,
                    old(self)@[j],
                    #[trigger] final(self)@[j],
                )),
            final(self).spec_capacity() == old(self).spec_capacity(),
            !final(self).spec_is_heap() ==> final(self).spec_next_key() == first_none(
                final(self)@,
                0,
            ),
    {
        let mut data: Option<Data<T>> = None;
        core::mem::swap(&mut self.0, &mut data);
        match data {
            None => {
                self.0 = None;
            },
            Some(Data::Heap(mut m)) => {
                proof {
                    assert forall|j: usize, x: T|
                        lookup(m@, j) == Some(x) implies call_requires(f, (j, &x)) by {}
                }
                m.retain(f);
                self.0 = Some(Data::Heap(m));
            },
            Some(Data::Inline { len: _, mut items }) => {
                let ghost items0 = items@;
                let n = items.len();
                let mut j: usize = 0;
                let mut kept: usize = 0;
                while j < n
                    invariant
                        n == items@.len(),
                        items0.len() == n,
                        j <= n,
                        kept as int == count_prefix(items@, j as int),
                        kept <= j,
                        forall|i2: int| j <= i2 < n ==> items@[i2] == items0[i2],
                        forall|i2: int|
                            0 <= i2 < j ==> retain_rel(f, i2, items0[i2], #[trigger] items@[i2]),
                        forall|j2: usize, x: T|
                            lookup(items0, j2) == Some(x) ==> #[trigger] call_requires(
                                f,
                                (j2, &x),
                            ),
                    decreases n - j,
                {
                    let ghost pre = items@;
                    let decision: Option<bool> = match &items[j] {
                        Some(v) => {
                            proof {
                                assert(items@[j as int] == items0[j as int]);
                                assert(lookup(items0, j) == Some(*v));
                            }
                            Some(f(j, v))
                        },
                        None => None,
                    };
                    match decision {
                        Some(true) => {
                            proof {
                                assert(call_ensures(f, (j, &items0[j as int]->0), true));
                            }
                            kept = kept + 1;
                        },
                        Some(false) => {
                            items.set(j, None);
                            proof {
                                lemma_count_prefix_congruent(pre, items@, j as int);
                                assert(call_ensures(f, (j, &items0[j as int]->0), false));
                            }
                        },
                        None => {},
                    }
                    proof {
                        assert forall|i2: int|
                            0 <= i2 < j + 1 implies retain_rel(
                            f,
                            i2,
                            items0[i2],
                            #[trigger] items@[i2],
                        ) by {
                            if i2 < j {
                                assert(items@[i2] == pre[i2]);
                            }
                        }
                    }
                    j = j + 1;
                }
                proof {
                    lemma_count_full(items@);
                }
                self.0 = Some(Data::Inline { len: kept, items });
            },
        }
        proof {
            if !self.spec_is_heap() {
                self.lemma_next_key_is_first_none();
            }
        }
    }

    /// Reorganizes the free space of a promoted store for fast iteration;
    /// does nothing while inline, where there is nothing to compact. The
    /// held entries and their keys never change.
    pub fn optimize(&mut self)
        requires
            old(self).wf(),
        ensures
            final(self).wf(),
            pairs_of(final(self)@) == pairs_of(old(self)@),
            forall|key: usize| final(self).spec_get(key) == old(self).spec_get(key),
            !old(self).spec_is_heap() ==> final(self)@ == old(self)@,
            final(self).spec_is_heap() == old(self).spec_is_heap(),
            final(self).spec_capacity() == old(self).spec_capacity(),
            !final(self).spec_is_heap() && old(self).wf() ==> final(self).spec_next_key()
                == first_none(final(self)@, 0),
    {
        let mut data: Option<Data<T>> = None;
        core::mem::swap(&mut self.0, &mut data);
        match data {
            Some(Data::Heap(mut m)) => {
                m.optimize();
                self.0 = Some(Data::Heap(m));
            },
            other => {
                self.0 = other;
            },
        }
        proof {
            if !self.spec_is_heap() && old(self).wf() {
                self.lemma_next_key_is_first_none();
            }
        }
    }

    /// The spec value of a fresh inline table.
    pub(crate) open spec fn blank_ghost() -> Seq<Option<T>> {
        Seq::new(N as nat, |j: int| None)
    }

    /// Builds a container from `(key, value)` pairs, applied in order so
    /// that a later pair with the same key overwrites an earlier one, with
    /// at least the given capacity. The result is promoted exactly when the
    /// capacity or some key exceeds the inline threshold.
    pub fn from_iter_with_capacity(pairs: Vec<(usize, T)>, capacity: usize) -> (r: Self)
        requires
            forall|i: int| 0 <= i < pairs@.len() ==> (#[trigger] pairs@[i]).0 < usize::MAX,
        ensures
            r.wf(),
            forall|key: usize| r.spec_get(key) == lookup(table_of(pairs@), key),
            pairs_of(r@).len() == pairs_of(table_of(pairs@)).len(),
            r.spec_is_heap() <==> (capacity > N || exists|i: int|
                0 <= i < pairs@.len() && (#[trigger] pairs@[i]).0 >= N),
            r.spec_is_heap() ==> r@ == table_of(pairs@),
            !r.spec_is_heap() ==> r@.len() == N && (forall|j: int|
                0 <= j < N ==> #[trigger] r@[j] == lookup(table_of(pairs@), j as usize)),
            r.spec_capacity() >= capacity,
    {
        let ghost all = pairs@;
        let mut big = capacity > N;
        let n = pairs.len();
        let mut i: usize = 0;
        while i < n
            invariant
                n == pairs@.len(),
                pairs@ == all,
                i <= n,
                big <==> (capacity > N || exists|i2: int|
                    0 <= i2 < i && (#[trigger] all[i2]).0 >= N),
            decreases n - i,
        {
            let ghost big0 = big;
            let (k, _) = pairs[i];
            if k >= N {
                big = true;
            }
            proof {
                assert(all[i as int].0 == k);
                if big && !big0 {
                    assert(0 <= i < all.len() && all[i as int].0 >= N);
                }
            }
            i = i + 1;
        }
        if big {
            let cap = if capacity > N {
                capacity
            } else {
                0
            };
            proof {
                assert forall|i3: int|
                    0 <= i3 < pairs@.len() implies (#[trigger] pairs@[i3]).0 < usize::MAX by {
                    assert(pairs@[i3] == all[i3]);
                }
            }
            let m = SlabMap::from_iter_with_capacity(pairs, cap);
            proof {
                lemma_pairs_from_len_le(m@, 0);
                if capacity <= N {
                    let i3 = choose|i3: int|
                        0 <= i3 < all.len() && (#[trigger] all[i3]).0 >= N;
                    crate::table::lemma_table_of_key_bound(all, i3);
                    assert(m@.len() > all[i3].0);
                }
            }
            SmallSlabMap(Some(Data::Heap(m)))
        } else {
            let mut pairs = pairs;
            let mut items = Self::blank_items();
            let mut count: usize = 0;
            let ghost mut i2: int = 0;
            proof {
                assert forall|key: usize|
                    lookup(items@, key) == lookup(
                        table_of(all.subrange(0, 0)),
                        key,
                    ) by {
                    assert(all.subrange(0, 0) =~= Seq::<(usize, T)>::empty());
                }
            }
            proof {
                assert forall|i3: int|
                    0 <= i3 < all.len() implies (#[trigger] all[i3]).0 < N by {
                    if all[i3].0 >= N {
                        assert(exists|i4: int| 0 <= i4 < all.len() && (#[trigger] all[i4]).0 >= N);
                    }
                }
                lemma_pairs_from_none_range(items@, 0, items@.len() as int);
            }
            while pairs.len() > 0
                invariant
                    0 <= i2 <= all.len(),
                    pairs@ =~= all.subrange(i2, all.len() as int),
                    items@.len() == N,
                    forall|i3: int| 0 <= i3 < all.len() ==> (#[trigger] all[i3]).0 < N,
                    forall|key: usize|
                        lookup(items@, key) == lookup(table_of(all.subrange(0, i2)), key),
                    count == pairs_of(items@).len(),
                decreases all.len() - i2,
            {
                let ghost done = all.subrange(0, i2);
                let ghost items1 = items@;
                proof {
                    assert(pairs@.len() > 0);
                    assert(i2 < all.len());
                }
                let (k, v) = pairs.remove(0);
                proof {
                    assert(all[i2] == (k, v));
                    assert(all[i2].0 < N);
                }
                let was_none = match &items[k] {
                    None => true,
                    Some(_) => false,
                };
                items.set(k, Some(v));
                if was_none {
                    proof {
                        lemma_pairs_from_len_lt(items1, 0, k as int);
                        lemma_pairs_from_len_update(items1, 0, k as int, Some(v));
                    }
                    count = count + 1;
                } else {
                    proof {
                        lemma_pairs_from_len_update(items1, 0, k as int, Some(v));
                    }
                }
                proof {
                    let done1 = all.subrange(0, i2 + 1);
                    assert(done1.drop_last() =~= done);
                    assert(done1.last() == (k, v));
                    assert(table_of(done1) == table_set(table_of(done), k, v));
                    assert forall|i3: int|
                        0 <= i3 < done1.len() implies (#[trigger] done1[i3]).0 < N by {
                        assert(done1[i3] == all[i3]);
                    }
                    lemma_table_of_len_bound(done1, N as int);
                    assert forall|key: usize|
                        lookup(items@, key) == lookup(table_of(done1), key) by {
                        lemma_table_set_lookup(table_of(done), k, v, key);
                        if key == k {
                            assert(lookup(items@, key) == Some(v));
                        } else if key < N {
                            assert(items@[key as int] == items1[key as int]);
                            assert(lookup(items@, key) == lookup(items1, key));
                            assert(lookup(items1, key) == lookup(table_of(done), key));
                        } else {
                            assert(lookup(items@, key) is None);
                            assert(table_of(done1).len() <= N);
                            assert(lookup(table_of(done1), key) is None);
                        }
                    }
                    assert(pairs@ =~= all.subrange(i2 + 1, all.len() as int));
                    i2 = i2 + 1;
                }
            }
            proof {
                assert(all.subrange(0, all.len() as int) =~= all);
                lemma_table_of_len_bound(all, N as int);
                lemma_count_full(items@);
                lemma_count_full(table_of(all));
                assert forall|j: int|
                    0 <= j < table_of(all).len() implies (items@[j] is None <==> table_of(
                    all,
                )[j] is None) by {
                    assert(lookup(items@, j as usize) == lookup(table_of(all), j as usize));
                }
                crate::table::lemma_count_prefix_occupancy(
                    items@,
                    table_of(all),
                    table_of(all).len() as int,
                );
                assert forall|j: int|
                    table_of(all).len() <= j < items@.len() implies items@[j] is None by {
                    assert(lookup(items@, j as usize) == lookup(table_of(all), j as usize));
                }
                crate::table::lemma_count_prefix_skip_none(
                    items@,
                    table_of(all).len() as int,
                    items@.len() as int,
                );
                assert forall|j: int|
                    0 <= j < N implies items@[j] == lookup(table_of(all), j as usize) by {
                    assert(lookup(items@, j as usize) == lookup(table_of(all), j as usize));
                }
            }
            SmallSlabMap(Some(Data::Inline { len: count, items }))
        }
    }

    /// Replaces the contents with clones of `source`'s elements at the same
    /// keys. A promoted container stays promoted and reuses its allocation;
    /// an inline container promotes only when a source key needs it.
    pub fn clone_from(&mut self, source: &Self)
        where T: Clone
        requires
            old(self).wf(),
            source.wf(),
        ensures
            final(self).wf(),
            pairs_of(final(self)@).len() == pairs_of(source@).len(),
            forall|key: usize| #![trigger final(self).spec_get(key)]
                (final(self).spec_get(key) is Some <==> source.spec_get(key) is Some) && (
                source.spec_get(key) is Some ==> vstd::pervasive::cloned::<T>(
                    source.spec_get(key)->0,
                    final(self).spec_get(key)->0,
                )),
            old(self).spec_is_heap() ==> final(self).spec_capacity() >= old(self).spec_capacity() && (source@.len() <= old(self).spec_capacity() ==> final(self).spec_capacity() == old(self).spec_capacity()),
            !old(self).spec_is_heap() && !final(self).spec_is_heap() ==> final(self).spec_capacity() == old(self).spec_capacity(),
            final(self).spec_is_heap() == old(self).spec_is_heap() || (!old(self).spec_is_heap()
                && final(self).spec_is_heap()),
    {
        let mut data: Option<Data<T>> = None;
        core::mem::swap(&mut self.0, &mut data);
        match data {
            Some(Data::Heap(mut m)) => {
                match &source.0 {
                    Some(Data::Heap(ms)) => {
                        m.clone_from(ms);
                        proof {
                            assert forall|key: usize|
                                (#[trigger] m.spec_get(key) is Some) <==> (ms.spec_get(key)
                                    is Some) by {
                                if (key as int) >= m@.len() && (key as int) < ms@.len() {
                                    assert(ms@[key as int] is None);
                                }
                            }
                        }
                    },
                    _ => {
                        Self::clone_into_slab(&mut m, source);
                    },
                }
                self.0 = Some(Data::Heap(m));
            },
            _ => {
                let r = Self::clone_inline_or_promote(source);
                self.0 = r.0;
            },
        }
    }

    /// Builds a fresh container holding clones of `source`'s elements,
    /// inline when they fit below the threshold.
    fn clone_inline_or_promote(source: &Self) -> (r: Self)
        where T: Clone
        requires
            source.wf(),
        ensures
            r.wf(),
            pairs_of(r@).len() == pairs_of(source@).len(),
            forall|key: usize| #![trigger r.spec_get(key)]
                (r.spec_get(key) is Some <==> source.spec_get(key) is Some) && (source.spec_get(
                    key,
                ) is Some ==> vstd::pervasive::cloned::<T>(
                    source.spec_get(key)->0,
                    r.spec_get(key)->0,
                )),
    {
        let mut out = Self::new();
        let src_len = match &source.0 {
            None => 0,
            Some(Data::Inline { len: _, items }) => items.len(),
            Some(Data::Heap(m)) => m.table_len(),
        };
        if src_len > N {
            let mut m = SlabMap::<T>::new();
            Self::clone_into_slab(&mut m, source);
            proof {
                lemma_pairs_from_len_le(m@, 0);
            }
            out.0 = Some(Data::Heap(m));
        } else {
            let mut items = Self::blank_items();
            let mut count: usize = 0;
            let mut j: usize = 0;
            proof {
                assert(src_len as int == source@.len());
                lemma_pairs_from_none_range(items@, 0, items@.len() as int);
            }
            while j < src_len
                invariant
                    src_len as int == source@.len(),
                    source.wf(),
                    src_len <= N,
                    items@.len() == N,
                    j <= src_len,
                    count == pairs_of(items@).len(),
                    forall|i3: int| j <= i3 < N ==> items@[i3] is None,
                    forall|key: usize| #![trigger lookup(items@, key)]
                        key < j ==> ((lookup(items@, key) is Some <==> source.spec_get(key)
                            is Some) && (source.spec_get(key) is Some
                            ==> vstd::pervasive::cloned::<T>(
                            source.spec_get(key)->0,
                            lookup(items@, key)->0,
                        ))),
                    forall|key: usize| key >= j ==> lookup(items@, key) is None,
                decreases src_len - j,
            {
                let ghost items1 = items@;
                match source.get(j) {
                    Some(v) => {
                        let ghost x0 = *v;
                        let c = v.clone();
                        items.set(j, Some(c));
                        proof {
                            assert(items1[j as int] is None);
                            lemma_pairs_from_len_lt(items1, 0, j as int);
                            lemma_pairs_from_len_update(items1, 0, j as int, items@[j as int]);
                            assert(lookup(items@, j) == Some(c));
                            assert(source.spec_get(j) == Some(x0));
                            assert(vstd::pervasive::cloned::<T>(x0, c));
                            assert forall|key: usize|
                                key != j implies lookup(items@, key) == lookup(
                                items1,
                                key,
                            ) by {}
                        }
                        count = count + 1;
                    },
                    None => {
                        proof {
                            assert(lookup(items@, j) is None);
                            assert(source.spec_get(j) is None);
                        }
                    },
                }
                proof {
                    assert forall|key: usize|
                        key < j + 1 implies (lookup(items@, key) is Some <==> source.spec_get(
                        key,
                    ) is Some) by {
                        if key < j {
                            assert(lookup(items@, key) == lookup(items1, key));
                        }
                    }
                    assert forall|key: usize|
                        key < j + 1 && source.spec_get(key) is Some implies
                        vstd::pervasive::cloned::<T>(
                        source.spec_get(key)->0,
                        lookup(items@, key)->0,
                    ) by {
                        if key < j {
                            assert(lookup(items@, key) == lookup(items1, key));
                        }
                    }
                }
                j = j + 1;
            }
            proof {
                lemma_count_full(items@);
                lemma_count_full(source@);
                assert forall|i3: int|
                    0 <= i3 < source@.len() implies (items@[i3] is None <==> source@[i3]
                    is None) by {
                    assert(lookup(items@, i3 as usize) is Some <==> source.spec_get(i3 as usize)
                        is Some);
                }
                crate::table::lemma_count_prefix_occupancy(
                    items@,
                    source@,
                    source@.len() as int,
                );
                crate::table::lemma_count_prefix_skip_none(
                    items@,
                    source@.len() as int,
                    items@.len() as int,
                );
                assert forall|i3: int|
                    source@.len() <= i3 < items@.len() implies items@[i3] is None by {
                    assert(lookup(items@, i3 as usize) is None);
                }
            }
            out.0 = Some(Data::Inline { len: count, items });
        }
        out
    }

    /// Fills `m` with clones of `source`'s elements at the same keys,
    /// reusing `m`'s allocation.
    fn clone_into_slab(m: &mut SlabMap<T>, source: &Self)
        where T: Clone
        requires
            old(m).wf(),
            source.wf(),
        ensures
            final(m).wf(),
            pairs_of(final(m)@).len() == pairs_of(source@).len(),
            forall|key: usize| #![trigger final(m).spec_get(key)]
                (final(m).spec_get(key) is Some <==> source.spec_get(key) is Some) && (
                source.spec_get(key) is Some ==> vstd::pervasive::cloned::<T>(
                    source.spec_get(key)->0,
                    final(m).spec_get(key)->0,
                )),
            final(m).spec_capacity() >= old(m).spec_capacity(),
            source@.len() <= old(m).spec_capacity() ==> final(m).spec_capacity() == old(m).spec_capacity(),
    {
        let ghost cap0 = m.spec_capacity();
        m.clear();
        proof {
            m.lemma_empty_no_heads();
        }
        let src_len = match &source.0 {
            None => 0,
            Some(Data::Inline { len: _, items }) => items.len(),
            Some(Data::Heap(ms)) => ms.table_len(),
        };
        let mut j: usize = 0;
        proof {
            assert(src_len as int == source@.len());
        }
        while j < src_len
            invariant
                src_len as int == source@.len(),
                source.wf(),
                j <= src_len,
                m.no_heads(),
                m@.len() <= m.spec_capacity(),
                m.spec_capacity() >= cap0,
                cap0 == old(m).spec_capacity(),
                source@.len() <= cap0 ==> m.spec_capacity() == cap0,
                m@.len() <= j,
                forall|key: usize| #![trigger lookup(m@, key)]
                    key < j ==> ((lookup(m@, key) is Some <==> source.spec_get(key)
                        is Some) && (source.spec_get(key) is Some ==> vstd::pervasive::cloned::<
                        T,
                    >(source.spec_get(key)->0, lookup(m@, key)->0))),
                forall|key: usize| key >= j ==> lookup(m@, key) is None,
                m@.len() > 0 ==> m@.last() is Some,
            decreases src_len - j,
        {
            let ghost prev = m@;
            match source.get(j) {
                Some(v) => {
                    let ghost x0 = *v;
                    let c = v.clone();
                    m.set(j, c);
                    proof {
                        assert(m@ == table_set(prev, j, c));
                        assert forall|key: usize|
                            key != j implies lookup(m@, key) == lookup(prev, key) by {
                            lemma_table_set_lookup(prev, j, c, key);
                        }
                        lemma_table_set_lookup(prev, j, c, j);
                        assert(lookup(m@, j) == Some(c));
                        assert(source.spec_get(j) == Some(x0));
                        assert(vstd::pervasive::cloned::<T>(x0, c));
                    }
                },
                None => {
                    proof {
                        assert(lookup(m@, j) is None);
                        assert(source.spec_get(j) is None);
                    }
                },
            }
            proof {
                assert forall|key: usize|
                    key < j + 1 implies (lookup(m@, key) is Some <==> source.spec_get(key)
                    is Some) by {
                    if key < j {
                        assert(lookup(m@, key) == lookup(prev, key));
                    }
                }
                assert forall|key: usize|
                    key < j + 1 && source.spec_get(key) is Some implies
                    vstd::pervasive::cloned::<T>(
                    source.spec_get(key)->0,
                    lookup(m@, key)->0,
                ) by {
                    if key < j {
                        assert(lookup(m@, key) == lookup(prev, key));
                    }
                }
                assert forall|key: usize| key >= j + 1 implies lookup(m@, key) is None by {
                    assert(lookup(m@, key) == lookup(prev, key));
                }
            }
            j = j + 1;
        }
        let ghost w = m@;
        proof {
            m.lemma_no_heads_rebuild_safe();
        }
        m.rebuild_vacants();
        proof {
            lemma_trim_nones(w);
            assert forall|key: usize| #![trigger lookup(m@, key)]
                (lookup(m@, key) is Some <==> source.spec_get(key) is Some) && (source.spec_get(
                    key,
                ) is Some ==> vstd::pervasive::cloned::<T>(
                    source.spec_get(key)->0,
                    lookup(m@, key)->0,
                )) by {
                assert(lookup(m@, key) == lookup(w, key));
                if key >= src_len {
                    assert(lookup(w, key) is None);
                    assert(source.spec_get(key) is None);
                }
            }
            lemma_count_full(m@);
            lemma_count_full(w);
            lemma_count_full(source@);
            assert forall|i3: int|
                0 <= i3 < source@.len() && i3 < w.len() implies (w[i3] is None <==> source@[i3]
                is None) by {
                assert(lookup(w, i3 as usize) is Some <==> source.spec_get(i3 as usize)
                    is Some);
            }
            assert(w.len() <= source@.len());
            crate::table::lemma_count_prefix_occupancy(w, source@, w.len() as int);
            assert forall|i3: int| w.len() <= i3 < source@.len() implies source@[i3] is None by {
                assert(lookup(w, i3 as usize) is None);
                assert(source.spec_get(i3 as usize) is None);
            }
            crate::table::lemma_count_prefix_skip_none(
                source@,
                w.len() as int,
                source@.len() as int,
            );
            assert(pairs_of(m@).len() == pairs_of(w).len());
        }
    }

    /// Returns a reference to the value at `key`. Unlike
    /// [`get`](SmallSlabMap::get), callers must show the key is occupied.
    pub fn index(&self, key: usize) -> (r: &T)
        requires
            self.spec_get(key) is Some,
        ensures
            self.spec_get(key) == Some(*r),
    {
        match self.get(key) {
            Some(v) => v,
            None => unreached(),
        }
    }

    /// Returns a mutable reference to the value at `key`. Unlike
    /// [`get_mut`](SmallSlabMap::get_mut), callers must show the key is
    /// occupied.
    pub fn index_mut(&mut self, key: usize) -> (r: &mut T)
        requires
            old(self).wf(),
            old(self).spec_get(key) is Some,
        ensures
            *r == old(self).spec_get(key)->0,
            final(self)@ == old(self)@.update(key as int, Some(*final(r))),
            final(self).wf(),
            final(self).spec_capacity() == old(self).spec_capacity(),
            !final(self).spec_is_heap() ==> final(self).spec_next_key() == first_none(
                final(self)@,
                0,
            ),
    {
        match self.get_mut(key) {
            Some(v) => v,
            None => unreached(),
        }
    }

    /// Gets a cursor over the entries of the map, sorted by key.
    pub fn iter<'a>(&'a self) -> (r: Iter<'a, T, N>)
        requires
            self.wf(),
        ensures
            r.wf(),
            r@ == pairs_of(self@),
    {
        match &self.0 {
            None => {
                let c = InlineIter::<'a, T> { items: &[], pos: 0, remaining: 0 };
                proof {
                    assert(c.items@ =~= Seq::<Option<T>>::empty());
                }
                Iter(RawIter::Inline(c))
            },
            Some(Data::Inline { len, items }) => Iter(
                RawIter::Inline(InlineIter { items: items.as_slice(), pos: 0, remaining: *len }),
            ),
            Some(Data::Heap(m)) => Iter(RawIter::Heap(m.iter())),
        }
    }

    /// Gets a cursor over the keys of the map, in sorted order.
    pub fn keys<'a>(&'a self) -> (r: Keys<'a, T, N>)
        requires
            self.wf(),
        ensures
            r.wf(),
            r@ == pairs_of(self@),
    {
        Keys(self.iter())
    }

    /// Gets a cursor over the values of the map, in key order.
    pub fn values<'a>(&'a self) -> (r: Values<'a, T, N>)
        requires
            self.wf(),
        ensures
            r.wf(),
            r@ == pairs_of(self@),
    {
        Values(self.iter())
    }

    /// Gets a cursor over the entries of the map, sorted by key, that lends
    /// out mutable references to the values. Writes through the yielded
    /// references update the stored values in place.
    pub fn iter_mut<'a>(&'a mut self) -> (r: IterMut<'a, T, N>)
        requires
            old(self).wf(),
        ensures
            r.wf(),
            r@ == pairs_of(old(self)@),
    {
        match &mut self.0 {
            None => {
                let c = InlineIterMut::<'a, T> {
                    rest: &mut [],
                    off: 0,
                    remaining: 0,
                    orig: Ghost(Seq::empty()),
                };
                IterMut(RawIterMut::Inline(c))
            },
            Some(Data::Inline { len, items }) => {
                let n = *len;
                let ghost orig = items@;
                let n0 = items.len();
                proof {
                    assert(orig.len() == n0);
                }
                let rest = items.as_mut_slice();
                IterMut(
                    RawIterMut::Inline(
                        InlineIterMut { rest, off: 0, remaining: n, orig: Ghost(orig) },
                    ),
                )
            },
            Some(Data::Heap(m)) => IterMut(RawIterMut::Heap(m.iter_mut())),
        }
    }

    /// Gets a cursor over the values of the map, in key order, that lends
    /// out mutable references.
    pub fn values_mut<'a>(&'a mut self) -> (r: ValuesMut<'a, T, N>)
        requires
            old(self).wf(),
        ensures
            r.wf(),
            r@ == pairs_of(old(self)@),
    {
        ValuesMut(self.iter_mut())
    }

    /// Turns the map into an owning cursor over its entries, sorted by key.
    pub fn into_iter(self) -> (r: IntoIter<T, N>)
        requires
            self.wf(),
        ensures
            r.wf(),
            r@ == pairs_of(self@),
    {
        match self.0 {
            None => IntoIter(
                RawIntoIter::Inline(
                    InlineIntoIter {
                        items: Vec::new(),
                        pos: 0,
                        remaining: 0,
                        orig: Ghost(Seq::empty()),
                    },
                ),
            ),
            Some(Data::Inline { len, items }) => {
                let ghost orig = items@;
                IntoIter(
                    RawIntoIter::Inline(
                        InlineIntoIter { items, pos: 0, remaining: len, orig: Ghost(orig) },
                    ),
                )
            },
            Some(Data::Heap(m)) => IntoIter(RawIntoIter::Heap(m.into_iter())),
        }
    }

    /// Empties the map and returns its former entries as an owning cursor,
    /// sorted by key. The storage state (inline or promoted) is kept.
    pub fn drain(&mut self) -> (r: Drain<T, N>)
        requires
            old(self).wf(),
        ensures
            final(self).wf(),
            pairs_of(final(self)@).len() == 0,
            forall|key: usize| final(self).spec_get(key) is None,
            final(self).spec_is_heap() == old(self).spec_is_heap(),
            final(self).spec_next_key() == 0,
            final(self).spec_capacity() == old(self).spec_capacity(),
            r.wf(),
            r@ == pairs_of(old(self)@),
    {
        match &mut self.0 {
            None => Drain(
                RawDrain::Inline(
                    InlineIntoIter {
                        items: Vec::new(),
                        pos: 0,
                        remaining: 0,
                        orig: Ghost(Seq::empty()),
                    },
                ),
            ),
            Some(Data::Inline { len, items }) => {
                let n = *len;
                let mut taken = Self::blank_items();
                core::mem::swap(items, &mut taken);
                *len = 0;
                let ghost orig = taken@;
                proof {
                    lemma_pairs_from_none_range(items@, 0, items@.len() as int);
                }
                Drain(
                    RawDrain::Inline(
                        InlineIntoIter { items: taken, pos: 0, remaining: n, orig: Ghost(orig) },
                    ),
                )
            },
            Some(Data::Heap(m)) => Drain(RawDrain::Heap(m.drain())),
        }
    }

}

/// A cursor over the occupied cells of an inline table.
struct InlineIter<'a, T> {
    items: &'a [Option<T>],
    pos: usize,
    remaining: usize,
}

impl<'a, T> InlineIter<'a, T> {
    spec fn view(self) -> Seq<(usize, T)> {
        pairs_from(self.items@, self.pos as int)
    }

    spec fn wf(self) -> bool {
        &&& self.pos <= self.items@.len()
        &&& self.remaining == pairs_from(self.items@, self.pos as int).len()
    }

    fn next(&mut self) -> (r: Option<(usize, &'a T)>)
        requires
            old(self).wf(),
        ensures
            final(self).wf(),
            old(self).view().len() == 0 ==> r is None && final(self).view() == old(self).view(),
            old(self).view().len() > 0 ==> (r matches Some(p) && (p.0, *p.1) == old(self).view()[0] && final(self).view() == old(self).view().drop_first()),
    {
        let items: &'a [Option<T>] = self.items;
        let ghost v = items@;
        while self.pos < items.len()
            invariant
                self.items == items,
                items == old(self).items,
                old(self).pos <= v.len(),
                v == items@,
                self.pos <= v.len(),
                self.remaining == pairs_from(v, self.pos as int).len(),
                pairs_from(v, self.pos as int) == pairs_from(v, old(self).pos as int),
            decreases v.len() - self.pos,
        {
            let ghost p0 = self.pos as int;
            match &items[self.pos] {
                Some(val) => {
                    proof {
                        assert(pairs_from(v, p0) == seq![(self.pos, *val)] + pairs_from(
                            v,
                            p0 + 1,
                        ));
                        assert(pairs_from(v, p0)[0] == (self.pos, *val));
                        assert(pairs_from(v, p0).drop_first() =~= pairs_from(v, p0 + 1));
                    }
                    let k = self.pos;
                    self.pos = self.pos + 1;
                    self.remaining = self.remaining - 1;
                    return Some((k, val));
                },
                None => {
                    self.pos = self.pos + 1;
                },
            }
        }
        None
    }
}

/// A mutable cursor over the occupied cells of an inline table.
struct InlineIterMut<'a, T> {
    rest: &'a mut [Option<T>],
    off: usize,
    remaining: usize,
    orig: Ghost<Seq<Option<T>>>,
}

impl<'a, T> InlineIterMut<'a, T> {
    spec fn view(self) -> Seq<(usize, T)> {
        pairs_from(self.orig@, self.off as int)
    }

    spec fn wf(self) -> bool {
        &&& self.orig@.len() <= usize::MAX
        &&& self.off + self.rest@.len() == self.orig@.len()
        &&& (forall|j: int| 0 <= j < self.rest@.len() ==> self.rest@[j] == self.orig@[self.off + j])
        &&& self.remaining == pairs_from(self.orig@, self.off as int).len()
    }

    fn next(&mut self) -> (r: Option<(usize, &'a mut T)>)
        requires
            old(self).wf(),
        ensures
            final(self).wf(),
            old(self).view().len() == 0 ==> r is None && final(self).view() == old(self).view(),
            old(self).view().len() > 0 ==> (r matches Some(p) && p.0 == old(self).view()[0].0
                && *p.1 == old(self).view()[0].1 && final(self).view() == old(self).view().drop_first()),
    {
        let ghost orig = self.orig@;
        loop
            invariant
                self.orig@ == orig,
                orig == old(self).orig@,
                orig.len() <= usize::MAX,
                old(self).off <= orig.len(),
                self.off + self.rest@.len() == orig.len(),
                forall|j: int| 0 <= j < self.rest@.len() ==> self.rest@[j] == orig[self.off + j],
                self.remaining == pairs_from(orig, self.off as int).len(),
                pairs_from(orig, self.off as int) == pairs_from(orig, old(self).off as int),
            decreases self.rest@.len(),
        {
            let ghost p0 = self.off as int;
            if self.rest.len() == 0 {
                return None;
            }
            proof {
                assert(self.rest@[0] == orig[p0]);
            }
            let ghost rest0 = self.rest@;
            let mut taken: &'a mut [Option<T>] = &mut [];
            core::mem::swap(&mut self.rest, &mut taken);
            proof {
                assert(taken@ == rest0);
                assert forall|j: int| 0 <= j < taken@.len() implies taken@[j] == orig[p0 + j] by {}
            }
            let (one, rem) = taken.split_at_mut(1);
            self.rest = rem;
            self.off = self.off + 1;
            match one.first_mut() {
                Some(e) => {
                    match e {
                        Some(val) => {
                            proof {
                                assert(orig[p0] == Some(*val));
                                assert(pairs_from(orig, p0) == seq![
                                    (((self.off - 1) as usize, *val)),
                                ] + pairs_from(orig, p0 + 1));
                                assert(pairs_from(orig, p0)[0] == (
                                    (self.off - 1) as usize,
                                    *val,
                                ));
                                assert(pairs_from(orig, p0).drop_first() =~= pairs_from(
                                    orig,
                                    p0 + 1,
                                ));
                            }
                            self.remaining = self.remaining - 1;
                            return Some((self.off - 1, val));
                        },
                        None => {
                            proof {
                                assert(orig[p0] is None);
                            }
                        },
                    }
                },
                None => {
                    return unreached();
                },
            }
        }
    }
}

/// An owning cursor over the occupied cells of an inline table.
struct InlineIntoIter<T> {
    items: Vec<Option<T>>,
    pos: usize,
    remaining: usize,
    orig: Ghost<Seq<Option<T>>>,
}

impl<T> InlineIntoIter<T> {
    spec fn view(self) -> Seq<(usize, T)> {
        pairs_from(self.orig@, self.pos as int)
    }

    spec fn wf(self) -> bool {
        &&& self.pos <= self.orig@.len()
        &&& self.items@.len() == self.orig@.len()
        &&& (forall|j: int| self.pos <= j < self.orig@.len() ==> self.items@[j] == self.orig@[j])
        &&& self.remaining == pairs_from(self.orig@, self.pos as int).len()
    }

    fn next(&mut self) -> (r: Option<(usize, T)>)
        requires
            old(self).wf(),
        ensures
            final(self).wf(),
            old(self).view().len() == 0 ==> r is None && final(self).view() == old(self).view(),
            old(self).view().len() > 0 ==> (r matches Some(p) && p == old(self).view()[0]
                && final(self).view() == old(self).view().drop_first()),
    {
        let ghost orig = self.orig@;
        while self.pos < self.items.len()
            invariant
                self.orig@ == orig,
                orig == old(self).orig@,
                old(self).pos <= orig.len(),
                self.pos <= orig.len(),
                self.items@.len() == orig.len(),
                forall|j: int| self.pos <= j < orig.len() ==> self.items@[j] == orig[j],
                self.remaining == pairs_from(orig, self.pos as int).len(),
                pairs_from(orig, self.pos as int) == pairs_from(orig, old(self).pos as int),
            decreases orig.len() - self.pos,
        {
            let ghost p0 = self.pos as int;
            proof {
                assert(self.items@[p0] == orig[p0]);
            }
            let mut tmp: Option<T> = None;
            self.items.set_and_swap(self.pos, &mut tmp);
            match tmp {
                Some(x) => {
                    proof {
                        assert(orig[p0] == Some(x));
                        assert(pairs_from(orig, p0) == seq![((self.pos, x))] + pairs_from(
                            orig,
                            p0 + 1,
                        ));
                        assert(pairs_from(orig, p0)[0] == (self.pos, x));
                        assert(pairs_from(orig, p0).drop_first() =~= pairs_from(orig, p0 + 1));
                    }
                    let k = self.pos;
                    self.pos = self.pos + 1;
                    self.remaining = self.remaining - 1;
                    return Some((k, x));
                },
                None => {
                    self.pos = self.pos + 1;
                },
            }
        }
        None
    }
}

/// The two shapes of a borrowed cursor over a [`SmallSlabMap`].
enum RawIter<'a, T> {
    Inline(InlineIter<'a, T>),
    Heap(crate::slab_map::Iter<'a, T>),
}

/// A cursor over the entries of a [`SmallSlabMap`], yielding `(key, value)`
/// pairs in increasing key order.
pub struct Iter<'a, T, const N: usize>(RawIter<'a, T>);

impl<'a, T, const N: usize> View for Iter<'a, T, N> {
    type V = Seq<(usize, T)>;

    closed spec fn view(&self) -> Seq<(usize, T)> {
        match self.0 {
            RawIter::Inline(c) => c.view(),
            RawIter::Heap(c) => c@,
        }
    }
}

impl<'a, T, const N: usize> Iter<'a, T, N> {
    pub closed spec fn wf(self) -> bool {
        match self.0 {
            RawIter::Inline(c) => c.wf(),
            RawIter::Heap(c) => c.wf(),
        }
    }

    /// Yields the next `(key, value)` pair, or `None` when the walk is done.
    pub fn next(&mut self) -> (r: Option<(usize, &'a T)>)
        requires
            old(self).wf(),
        ensures
            final(self).wf(),
            old(self)@.len() == 0 ==> r is None && final(self)@ == old(self)@,
            old(self)@.len() > 0 ==> (r matches Some(p) && (p.0, *p.1) == old(self)@[0] && final(self)@ == old(self)@.drop_first()),
    {
        match &mut self.0 {
            RawIter::Inline(c) => c.next(),
            RawIter::Heap(c) => c.next(),
        }
    }

    /// The exact number of pairs still to come; O(1).
    pub fn count(&self) -> (r: usize)
        requires
            self.wf(),
        ensures
            r == self@.len(),
    {
        match &self.0 {
            RawIter::Inline(c) => c.remaining,
            RawIter::Heap(c) => c.count(),
        }
    }
}

/// A cursor over the keys of a [`SmallSlabMap`], in increasing order.
pub struct Keys<'a, T, const N: usize>(Iter<'a, T, N>);

impl<'a, T, const N: usize> View for Keys<'a, T, N> {
    type V = Seq<(usize, T)>;

    closed spec fn view(&self) -> Seq<(usize, T)> {
        self.0@
    }
}

impl<'a, T, const N: usize> Keys<'a, T, N> {
    pub closed spec fn wf(self) -> bool {
        self.0.wf()
    }

    /// Yields the next key, or `None` when the walk is done.
    pub fn next(&mut self) -> (r: Option<usize>)
        requires
            old(self).wf(),
        ensures
            final(self).wf(),
            old(self)@.len() == 0 ==> r is None && final(self)@ == old(self)@,
            old(self)@.len() > 0 ==> (r == Some(old(self)@[0].0) && final(self)@ == old(self)@.drop_first()),
    {
        match self.0.next() {
            Some((k, _)) => Some(k),
            None => None,
        }
    }

    /// The exact number of keys still to come; O(1).
    pub fn count(&self) -> (r: usize)
        requires
            self.wf(),
        ensures
            r == self@.len(),
    {
        self.0.count()
    }
}

/// A cursor over the values of a [`SmallSlabMap`], in increasing key order.
pub struct Values<'a, T, const N: usize>(Iter<'a, T, N>);

impl<'a, T, const N: usize> View for Values<'a, T, N> {
    type V = Seq<(usize, T)>;

    closed spec fn view(&self) -> Seq<(usize, T)> {
        self.0@
    }
}

impl<'a, T, const N: usize> Values<'a, T, N> {
    pub closed spec fn wf(self) -> bool {
        self.0.wf()
    }

    /// Yields the next value, or `None` when the walk is done.
    pub fn next(&mut self) -> (r: Option<&'a T>)
        requires
            old(self).wf(),
        ensures
            final(self).wf(),
            old(self)@.len() == 0 ==> r is None && final(self)@ == old(self)@,
            old(self)@.len() > 0 ==> (r matches Some(v) && *v == old(self)@[0].1 && final(self)@ == old(self)@.drop_first()),
    {
        match self.0.next() {
            Some((_, v)) => Some(v),
            None => None,
        }
    }

    /// The exact number of values still to come; O(1).
    pub fn count(&self) -> (r: usize)
        requires
            self.wf(),
        ensures
            r == self@.len(),
    {
        self.0.count()
    }
}

/// The two shapes of a mutable cursor over a [`SmallSlabMap`].
enum RawIterMut<'a, T> {
    Inline(InlineIterMut<'a, T>),
    Heap(crate::slab_map::IterMut<'a, T>),
}

/// A cursor over the entries of a [`SmallSlabMap`] that lends out mutable
/// references to the values, in increasing key order.
pub struct IterMut<'a, T, const N: usize>(RawIterMut<'a, T>);

impl<'a, T, const N: usize> View for IterMut<'a, T, N> {
    type V = Seq<(usize, T)>;

    closed spec fn view(&self) -> Seq<(usize, T)> {
        match self.0 {
            RawIterMut::Inline(c) => c.view(),
            RawIterMut::Heap(c) => c@,
        }
    }
}

impl<'a, T, const N: usize> IterMut<'a, T, N> {
    pub closed spec fn wf(self) -> bool {
        match self.0 {
            RawIterMut::Inline(c) => c.wf(),
            RawIterMut::Heap(c) => c.wf(),
        }
    }

    /// Yields the next key together with a mutable reference to its value,
    /// or `None` when the walk is done.
    pub fn next(&mut self) -> (r: Option<(usize, &'a mut T)>)
        requires
            old(self).wf(),
        ensures
            final(self).wf(),
            old(self)@.len() == 0 ==> r is None && final(self)@ == old(self)@,
            old(self)@.len() > 0 ==> (r matches Some(p) && p.0 == old(self)@[0].0 && *p.1 == old(self)@[0].1 && final(self)@ == old(self)@.drop_first()),
    {
        match &mut self.0 {
            RawIterMut::Inline(c) => c.next(),
            RawIterMut::Heap(c) => c.next(),
        }
    }

    /// The exact number of pairs still to come; O(1).
    pub fn count(&self) -> (r: usize)
        requires
            self.wf(),
        ensures
            r == self@.len(),
    {
        match &self.0 {
            RawIterMut::Inline(c) => c.remaining,
            RawIterMut::Heap(c) => c.count(),
        }
    }
}

/// A cursor over the values of a [`SmallSlabMap`] that lends out mutable
/// references, in increasing key order.
pub struct ValuesMut<'a, T, const N: usize>(IterMut<'a, T, N>);

impl<'a, T, const N: usize> View for ValuesMut<'a, T, N> {
    type V = Seq<(usize, T)>;

    closed spec fn view(&self) -> Seq<(usize, T)> {
        self.0@
    }
}

impl<'a, T, const N: usize> ValuesMut<'a, T, N> {
    pub closed spec fn wf(self) -> bool {
        self.0.wf()
    }

    /// Yields a mutable reference to the next value, or `None` when done.
    pub fn next(&mut self) -> (r: Option<&'a mut T>)
        requires
            old(self).wf(),
        ensures
            final(self).wf(),
            old(self)@.len() == 0 ==> r is None && final(self)@ == old(self)@,
            old(self)@.len() > 0 ==> (r matches Some(p) && *p == old(self)@[0].1 && final(self)@
                == old(self)@.drop_first()),
    {
        match self.0.next() {
            Some((_, val)) => Some(val),
            None => None,
        }
    }

    /// The exact number of values still to come; O(1).
    pub fn count(&self) -> (r: usize)
        requires
            self.wf(),
        ensures
            r == self@.len(),
    {
        self.0.count()
    }
}

/// The two shapes of an owning cursor over a [`SmallSlabMap`].
enum RawIntoIter<T> {
    Inline(InlineIntoIter<T>),
    Heap(crate::slab_map::IntoIter<T>),
}

/// An owning cursor over the entries of a [`SmallSlabMap`], yielding
/// `(key, value)` pairs in increasing key order.
pub struct IntoIter<T, const N: usize>(RawIntoIter<T>);

impl<T, const N: usize> View for IntoIter<T, N> {
    type V = Seq<(usize, T)>;

    closed spec fn view(&self) -> Seq<(usize, T)> {
        match self.0 {
            RawIntoIter::Inline(c) => c.view(),
            RawIntoIter::Heap(c) => c@,
        }
    }
}

impl<T, const N: usize> IntoIter<T, N> {
    pub closed spec fn wf(self) -> bool {
        match self.0 {
            RawIntoIter::Inline(c) => c.wf(),
            RawIntoIter::Heap(c) => c.wf(),
        }
    }

    /// Yields the next `(key, value)` pair, moving the value out, or `None`
    /// when the walk is done.
    pub fn next(&mut self) -> (r: Option<(usize, T)>)
        requires
            old(self).wf(),
        ensures
            final(self).wf(),
            old(self)@.len() == 0 ==> r is None && final(self)@ == old(self)@,
            old(self)@.len() > 0 ==> (r matches Some(p) && p == old(self)@[0] && final(self)@
                == old(self)@.drop_first()),
    {
        match &mut self.0 {
            RawIntoIter::Inline(c) => c.next(),
            RawIntoIter::Heap(c) => c.next(),
        }
    }

    /// The exact number of pairs still to come; O(1).
    pub fn count(&self) -> (r: usize)
        requires
            self.wf(),
        ensures
            r == self@.len(),
    {
        match &self.0 {
            RawIntoIter::Inline(c) => c.remaining,
            RawIntoIter::Heap(c) => c.count(),
        }
    }
}

/// The two shapes of a draining cursor over a [`SmallSlabMap`].
enum RawDrain<T> {
    Inline(InlineIntoIter<T>),
    Heap(crate::slab_map::Drain<T>),
}

/// A draining cursor for a [`SmallSlabMap`]: it owns the container's former
/// cells and yields the `(key, value)` pairs in increasing key order.
pub struct Drain<T, const N: usize>(RawDrain<T>);

impl<T, const N: usize> View for Drain<T, N> {
    type V = Seq<(usize, T)>;

    closed spec fn view(&self) -> Seq<(usize, T)> {
        match self.0 {
            RawDrain::Inline(c) => c.view(),
            RawDrain::Heap(c) => c@,
        }
    }
}

impl<T, const N: usize> Drain<T, N> {
    pub closed spec fn wf(self) -> bool {
        match self.0 {
            RawDrain::Inline(c) => c.wf(),
            RawDrain::Heap(c) => c.wf(),
        }
    }

    /// Yields the next drained `(key, value)` pair, or `None` when done.
    pub fn next(&mut self) -> (r: Option<(usize, T)>)
        requires
            old(self).wf(),
        ensures
            final(self).wf(),
            old(self)@.len() == 0 ==> r is None && final(self)@ == old(self)@,
            old(self)@.len() > 0 ==> (r matches Some(p) && p == old(self)@[0] && final(self)@
                == old(self)@.drop_first()),
    {
        match &mut self.0 {
            RawDrain::Inline(c) => c.next(),
            RawDrain::Heap(c) => c.next(),
        }
    }

    /// The exact number of pairs still to come; O(1).
    pub fn count(&self) -> (r: usize)
        requires
            self.wf(),
        ensures
            r == self@.len(),
    {
        match &self.0 {
            RawDrain::Inline(c) => c.remaining,
            RawDrain::Heap(c) => c.count(),
        }
    }

}

} // verus!

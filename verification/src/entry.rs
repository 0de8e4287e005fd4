//! The slot representation of the heap-backed store and the ghost model of
//! its free list.
//!
//! A vacant run of two or more consecutive slots is bracketed by a
//! `VacantHead` at its first position and a `VacantTail` at its last; the
//! slots strictly between them carry no defined content and are skipped by
//! arithmetic, never read. A lone vacant slot is a bare `VacantTail`. Each
//! tail links to the first slot of the next vacant region, or holds
//! `INVALID_INDEX` when none follows.
//!
//! The ghost `Block` sequence records, in hand-out order, where each vacant
//! region starts and how many slots it spans; `blocks_ok` ties it to the
//! concrete slots without ever constraining the interior of a run.
use vstd::prelude::*;

verus! {

/// Reserved index meaning "no next free slot".
pub const INVALID_INDEX: usize = usize::MAX;

#[derive(Clone)]
pub(crate) enum Entry<T> {
    Occupied(T),
    VacantHead { vacant_body_len: usize },
    VacantTail { next_vacant_idx: usize },
}

/// One vacant region: `len` consecutive vacant slots starting at `start`.
pub(crate) struct Block {
    pub start: int,
    pub len: int,
}

pub(crate) open spec fn slot_of<T>(e: Entry<T>) -> Option<T> {
    match e {
        Entry::Occupied(x) => Some(x),
        _ => None,
    }
}

/// The table a slot sequence stands for.
pub(crate) open spec fn view_of<T>(s: Seq<Entry<T>>) -> Seq<Option<T>> {
    Seq::new(s.len(), |i: int| slot_of(s[i]))
}

pub(crate) open spec fn is_free<T>(e: Entry<T>) -> bool {
    !(e is Occupied)
}

pub(crate) open spec fn covers(b: Block, i: int) -> bool {
    b.start <= i < b.start + b.len
}

/// The tail of block `k` links to the start of block `k + 1`, or to the
/// sentinel for the last block.
pub(crate) open spec fn block_next(bs: Seq<Block>, k: int) -> usize {
    if k + 1 < bs.len() {
        bs[k + 1].start as usize
    } else {
        INVALID_INDEX
    }
}

/// What the concrete slots must show for block `k`: all its slots vacant, a
/// correct tail at its last position, and, for a run of two or more, a
/// correct head at its first. Interior slots are unconstrained.
pub(crate) open spec fn block_ok<T>(s: Seq<Entry<T>>, bs: Seq<Block>, k: int) -> bool {
    let b = bs[k];
    &&& 1 <= b.len
    &&& 0 <= b.start
    &&& b.start + b.len <= s.len()
    &&& (forall|j: int| b.start <= j < b.start + b.len ==> is_free(#[trigger] s[j]))
    &&& s[b.start + b.len - 1] == (Entry::VacantTail::<T> { next_vacant_idx: block_next(bs, k) })
    &&& (b.len >= 2 ==> s[b.start] == (Entry::VacantHead::<T> {
        vacant_body_len: (b.len - 2) as usize,
    }))
}

/// The ghost blocks describe the slots exactly: each block is well formed,
/// no two blocks overlap, and every vacant slot lies in some block.
pub(crate) open spec fn blocks_ok<T>(s: Seq<Entry<T>>, bs: Seq<Block>) -> bool {
    &&& (forall|k: int| 0 <= k < bs.len() ==> block_ok(s, bs, k))
    &&& (forall|k1: int, k2: int, i: int|
        0 <= k1 < bs.len() && 0 <= k2 < bs.len() && k1 != k2 && #[trigger] covers(bs[k1], i)
            ==> !#[trigger] covers(bs[k2], i))
    &&& (forall|i: int|
        0 <= i < s.len() && is_free(#[trigger] s[i]) ==> exists|k: int|
            0 <= k < bs.len() && #[trigger] covers(bs[k], i))
}

/// Position `i` is not strictly inside any block: a walk that lands on it
/// reads defined content.
pub(crate) open spec fn aligned(bs: Seq<Block>, i: int) -> bool {
    forall|k: int| 0 <= k < bs.len() && #[trigger] covers(bs[k], i) ==> bs[k].start == i
}

/// Stepping rules of the skip walk. From an aligned position the slot read
/// is defined content: an occupied slot steps by one; a lone tail steps by
/// one over a vacant slot; a head skips its whole run, which holds only
/// vacant slots and ends in a tail. Each step lands aligned again.
pub(crate) proof fn lemma_aligned_step<T>(s: Seq<Entry<T>>, bs: Seq<Block>, i: int)
    requires
        blocks_ok(s, bs),
        aligned(bs, i),
        0 <= i < s.len(),
        s.len() <= usize::MAX,
    ensures
        s[i] is Occupied ==> aligned(bs, i + 1) && view_of(s)[i] == Some(s[i]->Occupied_0),
        s[i] is VacantTail ==> aligned(bs, i + 1) && view_of(s)[i] is None,
        s[i] matches Entry::VacantHead { vacant_body_len } ==> i + vacant_body_len + 2 <= s.len()
            && aligned(bs, i + vacant_body_len + 2) && (forall|j: int|
            i <= j < i + vacant_body_len + 2 ==> view_of(s)[j] is None) && s[i + vacant_body_len
            + 1] is VacantTail,
{
    if s[i] is Occupied {
        assert forall|k: int|
            0 <= k < bs.len() && #[trigger] covers(bs[k], i + 1) implies bs[k].start == i
            + 1 by {
            if bs[k].start <= i {
                assert(covers(bs[k], i));
                assert(block_ok(s, bs, k));
                assert(is_free(s[i]));
            }
        }
    } else {
        let k0 = choose|k: int| 0 <= k < bs.len() && #[trigger] covers(bs[k], i);
        assert(bs[k0].start == i);
        assert(block_ok(s, bs, k0));
        if s[i] is VacantTail {
            assert(bs[k0].len == 1) by {
                if bs[k0].len >= 2 {
                    assert(s[i] is VacantHead);
                }
            }
            assert forall|k: int|
                0 <= k < bs.len() && #[trigger] covers(bs[k], i + 1) implies bs[k].start == i
                + 1 by {
                if bs[k].start <= i {
                    assert(covers(bs[k], i));
                    if k != k0 {
                        assert(!covers(bs[k], i));
                    }
                }
            }
        }
        if s[i] is VacantHead {
            assert(bs[k0].len >= 2) by {
                if bs[k0].len == 1 {
                    assert(s[i] is VacantTail);
                }
            }
            let vacant_body_len = s[i]->VacantHead_vacant_body_len;
            assert(s[bs[k0].start + bs[k0].len - 1] == (Entry::VacantTail::<T> {
                next_vacant_idx: block_next(bs, k0),
            }));
            assert(vacant_body_len == bs[k0].len - 2);
            let e = i + vacant_body_len + 2;
            assert(e == bs[k0].start + bs[k0].len);
            assert forall|j: int| i <= j < e implies view_of(s)[j] is None by {
                assert(is_free(s[j]));
            }
            assert forall|k: int|
                0 <= k < bs.len() && #[trigger] covers(bs[k], e) implies bs[k].start == e by {
                if bs[k].start <= e - 1 {
                    assert(covers(bs[k], e - 1));
                    assert(covers(bs[k0], e - 1));
                    if k != k0 {
                        assert(!covers(bs[k], e - 1));
                    }
                    assert(k == k0);
                    assert(covers(bs[k0], e));
                }
            }
        }
    }
}

/// Position 0 is always aligned.
pub(crate) proof fn lemma_aligned_zero<T>(s: Seq<Entry<T>>, bs: Seq<Block>)
    requires
        blocks_ok(s, bs),
    ensures
        aligned(bs, 0),
{
    assert forall|k: int| 0 <= k < bs.len() && #[trigger] covers(bs[k], 0) implies bs[k].start
        == 0 by {
        assert(block_ok(s, bs, k));
    }
}

/// Consuming the head of a first block of two or more slots: the head slot
/// becomes occupied, and the block shrinks by one from the front. For a run
/// of three or more, the slot after the head is rewritten as the new head.
pub(crate) proof fn lemma_insert_reuse_head<T>(s0: Seq<Entry<T>>, bs0: Seq<Block>, x: T)
    requires
        blocks_ok(s0, bs0),
        bs0.len() > 0,
        bs0[0].len >= 2,
        s0.len() <= usize::MAX,
    ensures
        blocks_ok(
            (if bs0[0].len >= 3 {
                s0.update(
                    bs0[0].start + 1,
                    Entry::VacantHead::<T> { vacant_body_len: (bs0[0].len - 3) as usize },
                )
            } else {
                s0
            }).update(bs0[0].start, Entry::Occupied(x)),
            bs0.update(0, Block { start: bs0[0].start + 1, len: bs0[0].len - 1 }),
        ),
{
    let h = bs0[0].start;
    let ll = bs0[0].len;
    let s_mid = if ll >= 3 {
        s0.update(h + 1, Entry::VacantHead::<T> { vacant_body_len: (ll - 3) as usize })
    } else {
        s0
    };
    let s1 = s_mid.update(h, Entry::Occupied(x));
    let nb = bs0.update(0, Block { start: h + 1, len: ll - 1 });
    assert(block_ok(s0, bs0, 0));
    assert forall|kk: int| 0 <= kk < nb.len() implies block_ok(s1, nb, kk) by {
        assert(block_ok(s0, bs0, kk));
        assert forall|j: int|
            nb[kk].start <= j < nb[kk].start + nb[kk].len implies is_free(#[trigger] s1[j]) by {
            if kk == 0 {
                assert(covers(bs0[0], j));
            } else {
                assert(covers(bs0[kk], j));
                if j == h || j == h + 1 {
                    assert(covers(bs0[0], j));
                    assert(!covers(bs0[kk], j));
                }
            }
            assert(is_free(s0[j]) || (j == h + 1 && ll >= 3));
        }
        assert(block_next(nb, kk) == block_next(bs0, kk));
        if kk == 0 {
            assert(s1[h + ll - 1] == s0[h + ll - 1]);
        } else {
            assert(covers(bs0[0], h));
            assert(covers(bs0[0], h + 1));
            assert(s1[nb[kk].start + nb[kk].len - 1] == s0[bs0[kk].start + bs0[kk].len - 1]) by {
                assert(!covers(bs0[kk], h));
                assert(!covers(bs0[kk], h + 1));
                assert(covers(bs0[kk], bs0[kk].start + bs0[kk].len - 1));
            }
            if nb[kk].len >= 2 {
                assert(s1[nb[kk].start] == s0[bs0[kk].start]) by {
                    assert(!covers(bs0[kk], h));
                    assert(!covers(bs0[kk], h + 1));
                    assert(covers(bs0[kk], bs0[kk].start));
                }
            }
        }
    }
    assert forall|k1: int, k2: int, i: int|
        0 <= k1 < nb.len() && 0 <= k2 < nb.len() && k1 != k2 && #[trigger] covers(nb[k1], i)
        implies !#[trigger] covers(nb[k2], i) by {
        if covers(nb[k1], i) {
            assert(covers(bs0[k1], i));
        }
        if covers(nb[k2], i) {
            assert(covers(bs0[k2], i));
        }
    }
    assert forall|i: int| 0 <= i < s1.len() && is_free(#[trigger] s1[i]) implies exists|k: int|
        0 <= k < nb.len() && #[trigger] covers(nb[k], i) by {
        if i == h + 1 && ll >= 3 {
            assert(covers(nb[0], i));
        } else {
            assert(i != h);
            assert(is_free(s0[i]));
            let k0 = choose|k: int| 0 <= k < bs0.len() && #[trigger] covers(bs0[k], i);
            if k0 == 0 {
                assert(covers(nb[0], i));
            } else {
                assert(covers(nb[k0], i));
            }
        }
    }
}

/// Consuming a first block of exactly one slot: its lone tail slot becomes
/// occupied and the block disappears.
pub(crate) proof fn lemma_insert_reuse_tail<T>(s0: Seq<Entry<T>>, bs0: Seq<Block>, x: T)
    requires
        blocks_ok(s0, bs0),
        bs0.len() > 0,
        bs0[0].len == 1,
    ensures
        blocks_ok(
            s0.update(bs0[0].start, Entry::Occupied(x)),
            bs0.subrange(1, bs0.len() as int),
        ),
{
    let h = bs0[0].start;
    let s1 = s0.update(h, Entry::Occupied(x));
    let nb = bs0.subrange(1, bs0.len() as int);
    assert(block_ok(s0, bs0, 0));
    assert forall|kk: int| 0 <= kk < nb.len() implies block_ok(s1, nb, kk) by {
        assert(nb[kk] == bs0[kk + 1]);
        assert(block_ok(s0, bs0, kk + 1));
        assert(covers(bs0[0], h));
        assert(!covers(bs0[kk + 1], h));
        assert forall|j: int|
            nb[kk].start <= j < nb[kk].start + nb[kk].len implies is_free(#[trigger] s1[j]) by {
            assert(covers(bs0[kk + 1], j));
            assert(is_free(s0[j]));
        }
        assert(block_next(nb, kk) == block_next(bs0, kk + 1));
        assert(covers(bs0[kk + 1], bs0[kk + 1].start + bs0[kk + 1].len - 1));
        assert(covers(bs0[kk + 1], bs0[kk + 1].start));
    }
    assert forall|k1: int, k2: int, i: int|
        0 <= k1 < nb.len() && 0 <= k2 < nb.len() && k1 != k2 && #[trigger] covers(nb[k1], i)
        implies !#[trigger] covers(nb[k2], i) by {
        if covers(nb[k1], i) {
            assert(covers(bs0[k1 + 1], i));
        }
        if covers(nb[k2], i) {
            assert(covers(bs0[k2 + 1], i));
        }
    }
    assert forall|i: int| 0 <= i < s1.len() && is_free(#[trigger] s1[i]) implies exists|k: int|
        0 <= k < nb.len() && #[trigger] covers(nb[k], i) by {
        assert(i != h);
        assert(is_free(s0[i]));
        let k0 = choose|k: int| 0 <= k < bs0.len() && #[trigger] covers(bs0[k], i);
        assert(k0 != 0);
        assert(covers(nb[k0 - 1], i));
    }
}

/// Appending one occupied slot at the end leaves the blocks as they are.
pub(crate) proof fn lemma_append_occupied<T>(s0: Seq<Entry<T>>, bs0: Seq<Block>, x: T)
    requires
        blocks_ok(s0, bs0),
    ensures
        blocks_ok(s0.push(Entry::Occupied(x)), bs0),
{
    let s1 = s0.push(Entry::Occupied(x));
    assert forall|kk: int| 0 <= kk < bs0.len() implies block_ok(s1, bs0, kk) by {
        assert(block_ok(s0, bs0, kk));
        assert forall|j: int|
            bs0[kk].start <= j < bs0[kk].start + bs0[kk].len implies is_free(#[trigger] s1[j]) by {
            assert(covers(bs0[kk], j));
            assert(is_free(s0[j]));
        }
        assert(covers(bs0[kk], bs0[kk].start + bs0[kk].len - 1));
        assert(covers(bs0[kk], bs0[kk].start));
    }
    assert forall|i: int| 0 <= i < s1.len() && is_free(#[trigger] s1[i]) implies exists|k: int|
        0 <= k < bs0.len() && #[trigger] covers(bs0[k], i) by {
        assert(i < s0.len());
        assert(is_free(s0[i]));
    }
}

/// Freeing an occupied slot pushes a one-slot block onto the front of the
/// free list; its tail links to the previous first block.
pub(crate) proof fn lemma_remove_prepend<T>(s0: Seq<Entry<T>>, bs0: Seq<Block>, key: int)
    requires
        blocks_ok(s0, bs0),
        0 <= key < s0.len(),
        s0[key] is Occupied,
    ensures
        blocks_ok(
            s0.update(
                key,
                Entry::VacantTail::<T> {
                    next_vacant_idx: if bs0.len() > 0 {
                        bs0[0].start as usize
                    } else {
                        INVALID_INDEX
                    },
                },
            ),
            seq![Block { start: key, len: 1 }] + bs0,
        ),
{
    let nb = seq![Block { start: key, len: 1 }] + bs0;
    let s1 = s0.update(
        key,
        Entry::VacantTail::<T> {
            next_vacant_idx: if bs0.len() > 0 {
                bs0[0].start as usize
            } else {
                INVALID_INDEX
            },
        },
    );
    assert forall|kk: int| 0 <= kk < nb.len() implies block_ok(s1, nb, kk) by {
        if kk == 0 {
            assert(block_next(nb, 0) == (if bs0.len() > 0 {
                bs0[0].start as usize
            } else {
                INVALID_INDEX
            }));
            if bs0.len() > 0 {
                assert(block_ok(s0, bs0, 0));
            }
        } else {
            assert(nb[kk] == bs0[kk - 1]);
            assert(block_ok(s0, bs0, kk - 1));
            assert(!covers(bs0[kk - 1], key)) by {
                if covers(bs0[kk - 1], key) {
                    assert(is_free(s0[key]));
                }
            }
            assert forall|j: int|
                nb[kk].start <= j < nb[kk].start + nb[kk].len implies is_free(
                #[trigger] s1[j],
            ) by {
                assert(covers(bs0[kk - 1], j));
                assert(is_free(s0[j]));
            }
            assert(block_next(nb, kk) == block_next(bs0, kk - 1));
            assert(covers(bs0[kk - 1], bs0[kk - 1].start + bs0[kk - 1].len - 1));
            assert(covers(bs0[kk - 1], bs0[kk - 1].start));
        }
    }
    assert forall|k1: int, k2: int, i: int|
        0 <= k1 < nb.len() && 0 <= k2 < nb.len() && k1 != k2 && #[trigger] covers(nb[k1], i)
        implies !#[trigger] covers(nb[k2], i) by {
        if k1 > 0 && k2 > 0 {
            if covers(nb[k1], i) {
                assert(covers(bs0[k1 - 1], i));
            }
            if covers(nb[k2], i) {
                assert(covers(bs0[k2 - 1], i));
            }
        } else if k1 == 0 && covers(nb[0], i) {
            assert(i == key);
            if covers(nb[k2], i) {
                assert(covers(bs0[k2 - 1], key));
                assert(block_ok(s0, bs0, k2 - 1));
                assert(is_free(s0[key]));
            }
        } else if k2 == 0 && covers(nb[0], i) {
            assert(i == key);
            if covers(nb[k1], i) {
                assert(covers(bs0[k1 - 1], key));
                assert(block_ok(s0, bs0, k1 - 1));
                assert(is_free(s0[key]));
            }
        }
    }
    assert forall|i: int| 0 <= i < s1.len() && is_free(#[trigger] s1[i]) implies exists|k: int|
        0 <= k < nb.len() && #[trigger] covers(nb[k], i) by {
        if i == key {
            assert(covers(nb[0], i));
        } else {
            assert(is_free(s0[i]));
            let k0 = choose|k: int| 0 <= k < bs0.len() && #[trigger] covers(bs0[k], i);
            assert(covers(nb[k0 + 1], i));
        }
    }
}

/// Dropping an occupied last slot leaves the blocks as they are.
pub(crate) proof fn lemma_drop_last_occupied<T>(s0: Seq<Entry<T>>, bs0: Seq<Block>)
    requires
        blocks_ok(s0, bs0),
        s0.len() > 0,
        s0.last() is Occupied,
    ensures
        blocks_ok(s0.drop_last(), bs0),
{
    let s1 = s0.drop_last();
    assert forall|kk: int| 0 <= kk < bs0.len() implies block_ok(s1, bs0, kk) by {
        assert(block_ok(s0, bs0, kk));
        assert(bs0[kk].start + bs0[kk].len <= s1.len()) by {
            if bs0[kk].start + bs0[kk].len == s0.len() {
                assert(covers(bs0[kk], s0.len() - 1));
                assert(is_free(s0[s0.len() - 1]));
            }
        }
        assert forall|j: int|
            bs0[kk].start <= j < bs0[kk].start + bs0[kk].len implies is_free(#[trigger] s1[j]) by {
            assert(covers(bs0[kk], j));
            assert(is_free(s0[j]));
        }
        assert(covers(bs0[kk], bs0[kk].start + bs0[kk].len - 1));
        assert(covers(bs0[kk], bs0[kk].start));
    }
    assert forall|i: int| 0 <= i < s1.len() && is_free(#[trigger] s1[i]) implies exists|k: int|
        0 <= k < bs0.len() && #[trigger] covers(bs0[k], i) by {
        assert(is_free(s0[i]));
    }
}

/// Overwriting the value inside an occupied slot leaves the blocks as they
/// are.
pub(crate) proof fn lemma_update_occupied<T>(s0: Seq<Entry<T>>, bs0: Seq<Block>, key: int, fv: T)
    requires
        blocks_ok(s0, bs0),
        0 <= key < s0.len(),
        s0[key] is Occupied,
    ensures
        blocks_ok(s0.update(key, Entry::Occupied(fv)), bs0),
{
    let s1 = s0.update(key, Entry::Occupied(fv));
    assert forall|kk: int| 0 <= kk < bs0.len() implies block_ok(s1, bs0, kk) by {
        assert(block_ok(s0, bs0, kk));
        let b = bs0[kk];
        assert forall|j: int| b.start <= j < b.start + b.len implies is_free(
            #[trigger] s1[j],
        ) by {
            assert(covers(bs0[kk], j));
            assert(is_free(s0[j]));
            assert(j != key);
        }
        assert(covers(bs0[kk], b.start + b.len - 1));
        assert(covers(bs0[kk], b.start));
    }
    assert forall|i: int| 0 <= i < s1.len() && is_free(#[trigger] s1[i]) implies exists|k: int|
        0 <= k < bs0.len() && #[trigger] covers(bs0[k], i) by {
        assert(i != key);
        assert(is_free(s0[i]));
    }
}

} // verus!

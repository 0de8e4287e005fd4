//! The logical model shared by the slot containers: a table `Seq<Option<T>>`
//! whose index is the key, `Some` marking an occupied slot, together with the
//! sequence of occupied `(key, value)` pairs in key order.
use vstd::prelude::*;

verus! {

/// The value held at `key`, or `None` if the key is out of range or vacant.
pub open spec fn lookup<T>(v: Seq<Option<T>>, key: usize) -> Option<T> {
    if key < v.len() {
        v[key as int]
    } else {
        None
    }
}

/// The `(key, value)` pairs of the occupied slots at or after position `i`,
/// in increasing key order.
pub open spec fn pairs_from<T>(v: Seq<Option<T>>, i: int) -> Seq<(usize, T)>
    decreases v.len() - i,
    when 0 <= i <= v.len()
{
    if i >= v.len() {
        Seq::empty()
    } else {
        match v[i] {
            Some(x) => seq![(i as usize, x)] + pairs_from(v, i + 1),
            None => pairs_from(v, i + 1),
        }
    }
}

/// All occupied `(key, value)` pairs of the table, in increasing key order.
pub open spec fn pairs_of<T>(v: Seq<Option<T>>) -> Seq<(usize, T)> {
    pairs_from(v, 0)
}

/// 1 for an occupied slot, 0 for a vacant one.
pub open spec fn some1<T>(o: Option<T>) -> int {
    if o is Some {
        1
    } else {
        0
    }
}

/// The table with trailing vacant slots removed.
pub open spec fn trim_nones<T>(v: Seq<Option<T>>) -> Seq<Option<T>>
    decreases v.len(),
{
    if v.len() == 0 {
        v
    } else if v.last() is Some {
        v
    } else {
        trim_nones(v.drop_last())
    }
}

/// The table after storing `x` at `key`, growing with vacant slots as needed.
pub open spec fn table_set<T>(v: Seq<Option<T>>, key: usize, x: T) -> Seq<Option<T>> {
    let w = if key < v.len() {
        v
    } else {
        v + Seq::new((key + 1 - v.len()) as nat, |j: int| None)
    };
    w.update(key as int, Some(x))
}

/// The table built by storing a sequence of pairs in order; a later pair with
/// the same key overwrites an earlier one.
pub open spec fn table_of<T>(ps: Seq<(usize, T)>) -> Seq<Option<T>>
    decreases ps.len(),
{
    if ps.len() == 0 {
        Seq::empty()
    } else {
        table_set(table_of(ps.drop_last()), ps.last().0, ps.last().1)
    }
}

/// The value of the last pair with key `key`, or `None` if no pair has it.
pub open spec fn last_written<T>(ps: Seq<(usize, T)>, key: usize) -> Option<T>
    decreases ps.len(),
{
    if ps.len() == 0 {
        None
    } else if ps.last().0 == key {
        Some(ps.last().1)
    } else {
        last_written(ps.drop_last(), key)
    }
}

/// Every key listed by `pairs_from(v, i)` lies in `[i, v.len())`, holds the
/// listed value in the table, and the keys are strictly increasing.
pub proof fn lemma_pairs_from_keys<T>(v: Seq<Option<T>>, i: int)
    requires
        0 <= i <= v.len(),
        v.len() <= usize::MAX,
    ensures
        forall|j: int|
            0 <= j < pairs_from(v, i).len() ==> i <= #[trigger] pairs_from(v, i)[j].0 < v.len()
                && v[pairs_from(v, i)[j].0 as int] == Some(pairs_from(v, i)[j].1),
        forall|j1: int, j2: int|
            0 <= j1 < j2 < pairs_from(v, i).len() ==> #[trigger] pairs_from(v, i)[j1].0
                < #[trigger] pairs_from(v, i)[j2].0,
    decreases v.len() - i,
{
    if i < v.len() {
        lemma_pairs_from_keys(v, i + 1);
    }
}

/// `pairs_from(v, i)` lists a pair exactly when the table holds its value at
/// its key, at or after `i`.
pub proof fn lemma_pairs_from_contains<T>(v: Seq<Option<T>>, i: int, p: (usize, T))
    requires
        0 <= i <= v.len(),
        v.len() <= usize::MAX,
    ensures
        pairs_from(v, i).contains(p) <==> (i <= p.0 < v.len() && v[p.0 as int] == Some(p.1)),
    decreases v.len() - i,
{
    if i < v.len() {
        lemma_pairs_from_contains(v, i + 1, p);
        if i <= p.0 < v.len() && v[p.0 as int] == Some(p.1) {
            if p.0 == i {
                assert(pairs_from(v, i)[0] == p);
            } else {
                let j = choose|j: int|
                    0 <= j < pairs_from(v, i + 1).len() && #[trigger] pairs_from(v, i + 1)[j] == p;
                if v[i] is Some {
                    assert(pairs_from(v, i)[j + 1] == p);
                }
            }
        }
        if pairs_from(v, i).contains(p) {
            let j = choose|j: int| 0 <= j < pairs_from(v, i).len() && pairs_from(v, i)[j] == p;
            match v[i] {
                Some(x) => {
                    if j > 0 {
                        assert(pairs_from(v, i + 1)[j - 1] == p);
                    }
                },
                None => {},
            }
        }
    }
}

/// If every slot in `[i, j)` is vacant, the pair walk from `i` and from `j`
/// agree.
pub proof fn lemma_pairs_from_none_range<T>(v: Seq<Option<T>>, i: int, j: int)
    requires
        0 <= i <= j <= v.len(),
        forall|k: int| i <= k < j ==> v[k] is None,
    ensures
        pairs_from(v, i) == pairs_from(v, j),
    decreases j - i,
{
    if i < j {
        lemma_pairs_from_none_range(v, i + 1, j);
    }
}

/// How updating one slot at or after `i` changes the number of listed pairs.
pub proof fn lemma_pairs_from_len_update<T>(v: Seq<Option<T>>, i: int, k: int, x: Option<T>)
    requires
        0 <= i <= v.len(),
        i <= k < v.len(),
    ensures
        pairs_from(v.update(k, x), i).len() == pairs_from(v, i).len() + some1(x) - some1(v[k]),
    decreases v.len() - i,
{
    let w = v.update(k, x);
    if i < k {
        lemma_pairs_from_len_update(v, i + 1, k, x);
        assert(w[i] == v[i]);
    } else {
        assert(forall|m: int| k < m < v.len() ==> w[m] == v[m]);
        lemma_pairs_from_congruent(v, w, k + 1);
    }
}

/// Tables that agree at and after `i` list the same pairs from `i`.
pub proof fn lemma_pairs_from_congruent<T>(v: Seq<Option<T>>, w: Seq<Option<T>>, i: int)
    requires
        0 <= i <= v.len(),
        v.len() == w.len(),
        forall|m: int| i <= m < v.len() ==> v[m] == w[m],
    ensures
        pairs_from(v, i) == pairs_from(w, i),
    decreases v.len() - i,
{
    if i < v.len() {
        lemma_pairs_from_congruent(v, w, i + 1);
    }
}

/// Appending one slot to the table extends the pair count by its occupancy.
pub proof fn lemma_pairs_from_len_push<T>(v: Seq<Option<T>>, i: int, x: Option<T>)
    requires
        0 <= i <= v.len(),
    ensures
        pairs_from(v.push(x), i).len() == pairs_from(v, i).len() + some1(x),
    decreases v.len() - i,
{
    let w = v.push(x);
    if i < v.len() {
        lemma_pairs_from_len_push(v, i + 1, x);
        assert(w[i] == v[i]);
    } else {
        assert(w[i] == x);
        assert(pairs_from(w, i + 1) == Seq::<(usize, T)>::empty());
    }
}

/// Dropping the last slot shrinks the pair count by its occupancy.
pub proof fn lemma_pairs_from_len_drop_last<T>(v: Seq<Option<T>>, i: int)
    requires
        0 <= i <= v.len() - 1,
    ensures
        pairs_from(v, i).len() == pairs_from(v.drop_last(), i).len() + some1(v.last()),
{
    lemma_pairs_from_len_push(v.drop_last(), i, v.last());
    assert(v.drop_last().push(v.last()) =~= v);
}

/// Trimming trailing vacant slots changes no lookup and no listed pair.
pub proof fn lemma_trim_nones<T>(v: Seq<Option<T>>)
    requires
        v.len() <= usize::MAX,
    ensures
        trim_nones(v).len() <= v.len(),
        forall|key: usize| lookup(trim_nones(v), key) == lookup(v, key),
        pairs_of(trim_nones(v)) == pairs_of(v),
        trim_nones(v).len() > 0 ==> trim_nones(v).last() is Some,
        forall|j: int| 0 <= j < trim_nones(v).len() ==> trim_nones(v)[j] == v[j],
        forall|j: int| trim_nones(v).len() <= j < v.len() ==> v[j] is None,
    decreases v.len(),
{
    if v.len() > 0 && v.last() is None {
        let w = v.drop_last();
        lemma_trim_nones(w);
        lemma_pairs_from_len_drop_last(v, 0);
        assert(pairs_of(v).len() == pairs_of(w).len());
        assert forall|p: (usize, T)| pairs_of(v).contains(p) <==> pairs_of(w).contains(p) by {
            lemma_pairs_from_contains(v, 0, p);
            lemma_pairs_from_contains(w, 0, p);
        }
        lemma_pairs_of_eq_from_contains(v, w);
        assert forall|j: int| 0 <= j < trim_nones(v).len() implies trim_nones(v)[j] == v[j] by {
            assert(trim_nones(w)[j] == w[j]);
            assert(w[j] == v[j]);
        }
        assert forall|j: int| trim_nones(v).len() <= j < v.len() implies v[j] is None by {
            if j < w.len() {
                assert(w[j] is None);
            }
        }
        assert forall|key: usize| lookup(trim_nones(v), key) == lookup(v, key) by {
            assert(lookup(trim_nones(v), key) == lookup(w, key));
            if key + 1 == v.len() {
                assert(lookup(v, key) == v.last());
            }
        }
    }
}

/// Two tables whose pair lists have equal length and pairwise-shared members
/// list the same pairs (both lists are strictly sorted by key).
proof fn lemma_pairs_of_eq_from_contains<T>(v: Seq<Option<T>>, w: Seq<Option<T>>)
    requires
        v.len() <= usize::MAX,
        w.len() <= usize::MAX,
        pairs_of(v).len() == pairs_of(w).len(),
        forall|p: (usize, T)| pairs_of(v).contains(p) <==> pairs_of(w).contains(p),
    ensures
        pairs_of(v) == pairs_of(w),
{
    lemma_pairs_from_keys(v, 0);
    lemma_pairs_from_keys(w, 0);
    lemma_sorted_unique(pairs_of(v), pairs_of(w));
}

/// Strictly key-sorted pair lists with the same members are equal.
pub proof fn lemma_sorted_unique<T>(a: Seq<(usize, T)>, b: Seq<(usize, T)>)
    requires
        a.len() == b.len(),
        forall|j1: int, j2: int| 0 <= j1 < j2 < a.len() ==> #[trigger] a[j1].0 < #[trigger] a[j2].0,
        forall|j1: int, j2: int| 0 <= j1 < j2 < b.len() ==> #[trigger] b[j1].0 < #[trigger] b[j2].0,
        forall|p: (usize, T)| a.contains(p) <==> b.contains(p),
    ensures
        a == b,
    decreases a.len(),
{
    if a.len() > 0 {
        assert(a.contains(a[0]));
        assert(b.contains(b[0]));
        let ja = choose|j: int| 0 <= j < b.len() && b[j] == a[0];
        let jb = choose|j: int| 0 <= j < a.len() && a[j] == b[0];
        assert(b[ja].0 >= b[0].0);
        assert(a[jb].0 >= a[0].0);
        assert(a[0] == b[0]) by {
            if ja > 0 && jb > 0 {
                assert(a[0].0 > b[0].0 && b[0].0 > a[0].0);
            }
        }
        let a1 = a.drop_first();
        let b1 = b.drop_first();
        assert forall|p: (usize, T)| a1.contains(p) implies b1.contains(p) by {
            let j = choose|j: int| 0 <= j < a1.len() && a1[j] == p;
            assert(a[j + 1] == p);
            assert(a.contains(p));
            let m = choose|m: int| 0 <= m < b.len() && b[m] == p;
            assert(p.0 == a[j + 1].0 > a[0].0 == b[0].0);
            assert(m != 0);
            assert(b1[m - 1] == p);
        }
        assert forall|p: (usize, T)| b1.contains(p) implies a1.contains(p) by {
            let j = choose|j: int| 0 <= j < b1.len() && b1[j] == p;
            assert(b[j + 1] == p);
            assert(b.contains(p));
            let m = choose|m: int| 0 <= m < a.len() && a[m] == p;
            assert(p.0 == b[j + 1].0 > b[0].0 == a[0].0);
            assert(m != 0);
            assert(a1[m - 1] == p);
        }
        lemma_sorted_unique(a1, b1);
        assert(a =~= seq![a[0]] + a1);
        assert(b =~= seq![b[0]] + b1);
    } else {
        assert(a =~= b);
    }
}

/// The table built from a pair sequence holds, at each key, the value of the
/// last pair written with that key.
pub proof fn lemma_table_of_lookup<T>(ps: Seq<(usize, T)>, key: usize)
    ensures
        lookup(table_of(ps), key) == last_written(ps, key),
    decreases ps.len(),
{
    if ps.len() > 0 {
        lemma_table_of_lookup(ps.drop_last(), key);
    }
}

/// The table built from a pair sequence never ends in a vacant slot.
pub proof fn lemma_table_of_last_some<T>(ps: Seq<(usize, T)>)
    ensures
        table_of(ps).len() > 0 ==> table_of(ps).last() is Some,
        table_of(ps).len() == 0 ==> ps.len() == 0,
    decreases ps.len(),
{
    if ps.len() > 0 {
        lemma_table_of_last_some(ps.drop_last());
        let t = table_of(ps.drop_last());
        let key = ps.last().0;
        if key < t.len() {
            if key + 1 < t.len() {
                assert(table_of(ps).last() == t.last());
            }
        }
    }
}

/// The table after an insertion that was handed key `k`: an update of a
/// vacant slot in range, or the append of one new slot.
pub open spec fn inserted<T>(v: Seq<Option<T>>, k: usize, x: T) -> Seq<Option<T>> {
    if k < v.len() {
        v.update(k as int, Some(x))
    } else {
        v.push(Some(x))
    }
}

/// There are never more listed pairs than slots.
pub proof fn lemma_pairs_from_len_le<T>(v: Seq<Option<T>>, i: int)
    requires
        0 <= i <= v.len(),
    ensures
        pairs_from(v, i).len() <= v.len() - i,
    decreases v.len() - i,
{
    if i < v.len() {
        lemma_pairs_from_len_le(v, i + 1);
    }
}

/// A vacant slot at or after `i` makes the pair count strictly smaller than
/// the slot count.
pub proof fn lemma_pairs_from_len_lt<T>(v: Seq<Option<T>>, i: int, j: int)
    requires
        0 <= i <= j < v.len(),
        v[j] is None,
    ensures
        pairs_from(v, i).len() < v.len() - i,
    decreases v.len() - i,
{
    if i < j {
        lemma_pairs_from_len_lt(v, i + 1, j);
    } else {
        lemma_pairs_from_len_le(v, i + 1);
    }
}

/// The number of occupied slots among the first `j` positions.
pub open spec fn count_prefix<T>(v: Seq<Option<T>>, j: int) -> int
    decreases j,
    when 0 <= j <= v.len()
{
    if j <= 0 {
        0
    } else {
        count_prefix(v, j - 1) + some1(v[j - 1])
    }
}

/// The pairs listed from position `i` are the occupied slots not counted by
/// the prefix before `i`.
pub proof fn lemma_count_split<T>(v: Seq<Option<T>>, i: int)
    requires
        0 <= i <= v.len(),
    ensures
        pairs_from(v, i).len() == count_prefix(v, v.len() as int) - count_prefix(v, i),
    decreases v.len() - i,
{
    if i < v.len() {
        lemma_count_split(v, i + 1);
    }
}

/// The full prefix count is the number of listed pairs.
pub proof fn lemma_count_full<T>(v: Seq<Option<T>>)
    ensures
        count_prefix(v, v.len() as int) == pairs_of(v).len(),
{
    lemma_count_split(v, 0);
}

/// Tables that agree on the first `j` slots have the same prefix count.
pub proof fn lemma_count_prefix_congruent<T>(v: Seq<Option<T>>, w: Seq<Option<T>>, j: int)
    requires
        0 <= j <= v.len(),
        j <= w.len(),
        forall|m: int| 0 <= m < j ==> v[m] == w[m],
    ensures
        count_prefix(v, j) == count_prefix(w, j),
    decreases j,
{
    if j > 0 {
        lemma_count_prefix_congruent(v, w, j - 1);
    }
}

/// Vacant slots between `a` and `b` add nothing to the prefix count.
pub proof fn lemma_count_prefix_skip_none<T>(v: Seq<Option<T>>, a: int, b: int)
    requires
        0 <= a <= b <= v.len(),
        forall|m: int| a <= m < b ==> v[m] is None,
    ensures
        count_prefix(v, b) == count_prefix(v, a),
    decreases b - a,
{
    if a < b {
        lemma_count_prefix_skip_none(v, a, b - 1);
    }
}

/// The prefix count never exceeds the prefix length.
pub proof fn lemma_count_prefix_le<T>(v: Seq<Option<T>>, j: int)
    requires
        0 <= j <= v.len(),
    ensures
        0 <= count_prefix(v, j) <= j,
    decreases j,
{
    if j > 0 {
        lemma_count_prefix_le(v, j - 1);
    }
}

/// Tables with the same occupancy in their first `j` slots have the same
/// prefix count.
pub proof fn lemma_count_prefix_occupancy<T>(v: Seq<Option<T>>, u: Seq<Option<T>>, j: int)
    requires
        0 <= j <= v.len(),
        j <= u.len(),
        forall|m: int| 0 <= m < j ==> (v[m] is None <==> u[m] is None),
    ensures
        count_prefix(v, j) == count_prefix(u, j),
    decreases j,
{
    if j > 0 {
        lemma_count_prefix_occupancy(v, u, j - 1);
    }
}

/// The first vacant position of the table, or its length when none is
/// vacant: the key an insertion reuses first after compaction.
pub open spec fn first_none<T>(v: Seq<Option<T>>, i: int) -> int
    decreases v.len() - i,
    when 0 <= i <= v.len()
{
    if i >= v.len() {
        i
    } else if v[i] is None {
        i
    } else {
        first_none(v, i + 1)
    }
}

/// Law: iteration lists pairs in strictly increasing key order, whatever the
/// history of insertions, removals and compactions that produced the table.
pub proof fn lemma_pairs_of_sorted<T>(v: Seq<Option<T>>)
    requires
        v.len() <= usize::MAX,
    ensures
        forall|j1: int, j2: int|
            0 <= j1 < j2 < pairs_of(v).len() ==> #[trigger] pairs_of(v)[j1].0
                < #[trigger] pairs_of(v)[j2].0,
        forall|j: int|
            0 <= j < pairs_of(v).len() ==> #[trigger] pairs_of(v)[j].0 < v.len() && v[pairs_of(
                v,
            )[j].0 as int] == Some(pairs_of(v)[j].1),
{
    lemma_pairs_from_keys(v, 0);
}

/// Law: building a table from a pair sequence and listing its pairs
/// reproduces exactly the pairs written, a later duplicate key overwriting
/// an earlier one; together with `lemma_pairs_of_sorted` the listing is the
/// written pairs sorted by key.
pub proof fn lemma_round_trip<T>(ps: Seq<(usize, T)>, p: (usize, T))
    requires
        forall|i: int| 0 <= i < ps.len() ==> (#[trigger] ps[i]).0 < usize::MAX,
    ensures
        pairs_of(table_of(ps)).contains(p) <==> last_written(ps, p.0) == Some(p.1),
{
    lemma_table_of_lookup(ps, p.0);
    lemma_table_of_len(ps);
    lemma_pairs_from_contains(table_of(ps), 0, p);
}

/// The table built from a pair sequence is never longer than the largest
/// key allows.
pub proof fn lemma_table_of_len<T>(ps: Seq<(usize, T)>)
    requires
        forall|i: int| 0 <= i < ps.len() ==> (#[trigger] ps[i]).0 < usize::MAX,
    ensures
        table_of(ps).len() <= usize::MAX,
    decreases ps.len(),
{
    if ps.len() > 0 {
        assert(ps[ps.len() - 1].0 < usize::MAX);
        lemma_table_of_len(ps.drop_last());
    }
}

/// A table whose slots at or after `i` are all occupied lists one pair per
/// such slot.
pub proof fn lemma_pairs_from_all_some<T>(v: Seq<Option<T>>, i: int)
    requires
        0 <= i <= v.len(),
        forall|j: int| i <= j < v.len() ==> v[j] is Some,
    ensures
        pairs_from(v, i).len() == v.len() - i,
    decreases v.len() - i,
{
    if i < v.len() {
        lemma_pairs_from_all_some(v, i + 1);
    }
}

/// Characterizes the first vacant position: all slots before `m` occupied,
/// and `m` vacant or the end.
pub proof fn lemma_first_none_char<T>(v: Seq<Option<T>>, m: int)
    requires
        0 <= m <= v.len(),
        forall|j: int| 0 <= j < m ==> v[j] is Some,
        m < v.len() ==> v[m] is None,
    ensures
        first_none(v, 0) == m,
{
    lemma_first_none_char_from(v, 0, m);
}

proof fn lemma_first_none_char_from<T>(v: Seq<Option<T>>, i: int, m: int)
    requires
        0 <= i <= m <= v.len(),
        forall|j: int| i <= j < m ==> v[j] is Some,
        m < v.len() ==> v[m] is None,
    ensures
        first_none(v, i) == m,
    decreases m - i,
{
    if i < m {
        lemma_first_none_char_from(v, i + 1, m);
    }
}

/// What `table_set` stores: the new value at its key, everything else
/// unchanged.
pub proof fn lemma_table_set_lookup<T>(t: Seq<Option<T>>, k: usize, x: T, key: usize)
    requires
        k < usize::MAX,
    ensures
        lookup(table_set(t, k, x), key) == (if key == k {
            Some(x)
        } else {
            lookup(t, key)
        }),
{
    let w = table_set(t, k, x);
    if key != k {
        if key < t.len() && key < w.len() {
            assert(w[key as int] == t[key as int]);
        } else if key < w.len() {
            assert(w[key as int] is None);
        }
    }
}

/// Keys below a bound build a table no longer than the bound.
pub proof fn lemma_table_of_len_bound<T>(ps: Seq<(usize, T)>, bound: int)
    requires
        bound >= 0,
        forall|i: int| 0 <= i < ps.len() ==> (#[trigger] ps[i]).0 < bound,
    ensures
        table_of(ps).len() <= bound,
    decreases ps.len(),
{
    if ps.len() > 0 {
        assert(ps[ps.len() - 1].0 < bound);
        assert forall|i: int|
            0 <= i < ps.drop_last().len() implies (#[trigger] ps.drop_last()[i]).0 < bound by {
            assert(ps.drop_last()[i] == ps[i]);
        }
        lemma_table_of_len_bound(ps.drop_last(), bound);
        let t = table_of(ps.drop_last());
        let k = ps.last().0;
        assert(table_of(ps) == table_set(t, k, ps.last().1));
        assert(table_set(t, k, ps.last().1).len() == (if k < t.len() {
            t.len() as int
        } else {
            k + 1
        }));
        assert(t.len() <= bound);
        assert(k + 1 <= bound);
        assert(table_of(ps).len() <= bound);
    }
}

/// Basic facts about the first vacant position.
pub proof fn lemma_first_none_props<T>(v: Seq<Option<T>>)
    ensures
        0 <= first_none(v, 0) <= v.len(),
        first_none(v, 0) < v.len() ==> v[first_none(v, 0)] is None,
        forall|j: int| 0 <= j < first_none(v, 0) ==> v[j] is Some,
{
    lemma_first_none_props_from(v, 0);
}

proof fn lemma_first_none_props_from<T>(v: Seq<Option<T>>, i: int)
    requires
        0 <= i <= v.len(),
    ensures
        i <= first_none(v, i) <= v.len(),
        first_none(v, i) < v.len() ==> v[first_none(v, i)] is None,
        forall|j: int| i <= j < first_none(v, i) ==> v[j] is Some,
    decreases v.len() - i,
{
    if i < v.len() && !(v[i] is None) {
        lemma_first_none_props_from(v, i + 1);
    }
}

/// The table built from a pair sequence reaches past every written key.
pub proof fn lemma_table_of_key_bound<T>(ps: Seq<(usize, T)>, i: int)
    requires
        0 <= i < ps.len(),
    ensures
        table_of(ps).len() > ps[i].0,
    decreases ps.len(),
{
    if i + 1 == ps.len() {
        assert(table_of(ps) == table_set(table_of(ps.drop_last()), ps.last().0, ps.last().1));
    } else {
        lemma_table_of_key_bound(ps.drop_last(), i);
        assert(ps.drop_last()[i] == ps[i]);
        assert(table_of(ps) == table_set(table_of(ps.drop_last()), ps.last().0, ps.last().1));
    }
}

} // verus!

//! Why the two-phase reduce of a shuffle finds the first line whose token
//! occurs once: a key's occurrences all land in one partition, so a key is
//! unique in its partition exactly when it is unique in the input, and the
//! earliest of the partitions' earliest unique keys is the earliest unique
//! key overall, in whatever order the partitions are reduced.

use vstd::prelude::*;
use vstd::utf8::*;

use crate::entry::{
    block_bytes, blocks_bytes, encodable, lemma_blocks_round_trip, parse_blocks, Record,
};
use crate::reduce::{
    aggregate, candidates, earliest, first_single, key_position, lemma_key_position,
    local_first,
    merge_capped, partition_candidate, reduce_result, unique_keys,
};
use crate::shuffle::{
    lemma_partition_in_range, partition_bytes, partition_entries, partition_of, partitions_fit,
};

verus! {

/// The entry at `t` is the only one of `es` with its key.
pub open spec fn occurs_once(es: Seq<(Seq<char>, Record)>, t: int) -> bool {
    &&& 0 <= t < es.len()
    &&& forall|u: int| 0 <= u < es.len() && u != t ==> es[u].0 != es[t].0
}

/// Every entry of `es` counts one occurrence.
pub open spec fn all_single(es: Seq<(Seq<char>, Record)>) -> bool {
    forall|t: int| 0 <= t < es.len() ==> (#[trigger] es[t]).1.count == 1
}

proof fn lemma_once_push(prev: Seq<(Seq<char>, Record)>, e: (Seq<char>, Record), t: int)
    requires
        occurs_once(prev, t),
        prev[t].0 != e.0,
    ensures
        occurs_once(prev.push(e), t),
{
    let es = prev.push(e);
    assert forall|u: int| 0 <= u < es.len() && u != t implies es[u].0 != es[t].0 by {
        if u < prev.len() {
            assert(es[u] == prev[u]);
        }
    }
}

proof fn lemma_once_pop(prev: Seq<(Seq<char>, Record)>, e: (Seq<char>, Record), t: int)
    requires
        occurs_once(prev.push(e), t),
        t < prev.len(),
    ensures
        occurs_once(prev, t),
        prev[t].0 != e.0,
{
    let es = prev.push(e);
    assert(es[prev.len() as int] == e);
    assert forall|u: int| 0 <= u < prev.len() && u != t implies prev[u].0 != prev[t].0 by {
        assert(es[u] == prev[u]);
    }
}

proof fn lemma_once_last(prev: Seq<(Seq<char>, Record)>, e: (Seq<char>, Record))
    requires
        forall|t: int| 0 <= t < prev.len() ==> (#[trigger] prev[t]).0 != e.0,
    ensures
        occurs_once(prev.push(e), prev.len() as int),
{
    let es = prev.push(e);
    assert forall|u: int| 0 <= u < es.len() && u != prev.len() implies (#[trigger] es[u]).0 != es[prev.len() as int].0 by {
        assert(es[u] == prev[u]);
    }
}

/// What the fold of `es` keeps, as `lemma_aggregate` states it.
spec fn aggregate_facts(es: Seq<(Seq<char>, Record)>) -> bool {
    let a = aggregate(es);
    &&& unique_keys(a)
    &&& forall|p: int| 0 <= p < a.len() ==> (#[trigger] a[p]).1.count >= 1
    &&& forall|p: int|
        0 <= p < a.len() && (#[trigger] a[p]).1.count == 1 ==> exists|t: int|
            occurs_once(es, t) && es[t] == a[p]
    &&& forall|t: int| occurs_once(es, t) ==> exists|p: int| 0 <= p < a.len() && a[p] == es[t]
    &&& forall|t: int|
        0 <= t < es.len() ==> exists|p: int| 0 <= p < a.len() && a[p].0 == (#[trigger] es[t]).0
    &&& forall|p: int|
        0 <= p < a.len() ==> exists|t: int| 0 <= t < es.len() && (#[trigger] a[p]).0 == es[t].0
}

#[verifier::rlimit(40)]
proof fn lemma_aggregate_new_key(prev: Seq<(Seq<char>, Record)>, e: (Seq<char>, Record))
    requires
        aggregate_facts(prev),
        e.1.count == 1,
        key_position(aggregate(prev), e.0) < 0,
        forall|p: int| 0 <= p < aggregate(prev).len() ==> aggregate(prev)[p].0 != e.0,
        aggregate(prev.push(e)) == aggregate(prev).push(e),
    ensures
        aggregate_facts(prev.push(e)),
{
    let es = prev.push(e);
    let n = prev.len() as int;
    let a = aggregate(prev);
    let a2 = aggregate(es);
    assert forall|t: int| 0 <= t < prev.len() implies (#[trigger] prev[t]).0 != e.0 by {
        let p = choose|p: int| 0 <= p < a.len() && a[p].0 == (#[trigger] prev[t]).0;
    }
    lemma_once_last(prev, e);
    assert forall|p: int|
        0 <= p < a2.len() && (#[trigger] a2[p]).1.count == 1 implies exists|t: int|
        occurs_once(es, t) && es[t] == a2[p] by {
        if p < a.len() {
            assert(a2[p] == a[p]);
            let t = choose|t: int| occurs_once(prev, t) && prev[t] == a[p];
            lemma_once_push(prev, e, t);
            assert(es[t] == prev[t]);
        } else {
            assert(es[n] == a2[p]);
        }
    }
    assert forall|t: int| occurs_once(es, t) implies exists|p: int| 0 <= p < a2.len() && a2[p] == es[t] by {
        if t < n {
            lemma_once_pop(prev, e, t);
            assert(es[t] == prev[t]);
            let p = choose|p: int| 0 <= p < a.len() && a[p] == prev[t];
            assert(a2[p] == a[p]);
        } else {
            assert(a2[a.len() as int] == es[t]);
        }
    }
    assert forall|t: int| 0 <= t < es.len() implies exists|p: int|
        0 <= p < a2.len() && a2[p].0 == (#[trigger] es[t]).0 by {
        if t < n {
            assert(es[t] == prev[t]);
            let p = choose|p: int| 0 <= p < a.len() && a[p].0 == (#[trigger] prev[t]).0;
            assert(a2[p] == a[p]);
        } else {
            assert(a2[a.len() as int] == es[t]);
        }
    }
    assert forall|p: int| 0 <= p < a2.len() implies exists|t: int|
        0 <= t < es.len() && (#[trigger] a2[p]).0 == es[t].0 by {
        if p < a.len() {
            assert(a2[p] == a[p]);
            let t = choose|t: int| 0 <= t < prev.len() && (#[trigger] a[p]).0 == prev[t].0;
            assert(es[t] == prev[t]);
        } else {
            assert(a2[p].0 == es[n].0);
        }
    }
}

#[verifier::rlimit(40)]
proof fn lemma_aggregate_known_key(prev: Seq<(Seq<char>, Record)>, e: (Seq<char>, Record), j: int)
    requires
        aggregate_facts(prev),
        e.1.count == 1,
        0 <= j < aggregate(prev).len(),
        aggregate(prev)[j].0 == e.0,
        aggregate(prev.push(e)) == aggregate(prev).update(
            j,
            (e.0, merge_capped(aggregate(prev)[j].1, e.1)),
        ),
    ensures
        aggregate_facts(prev.push(e)),
{
    let es = prev.push(e);
    let n = prev.len() as int;
    let a = aggregate(prev);
    let a2 = aggregate(es);
    assert(a[j].1.count >= 1);
    let jt = choose|t: int| 0 <= t < prev.len() && (#[trigger] a[j]).0 == prev[t].0;
    assert forall|p: int|
        0 <= p < a2.len() && (#[trigger] a2[p]).1.count == 1 implies exists|t: int|
        occurs_once(es, t) && es[t] == a2[p] by {
        assert(p != j);
        assert(a2[p] == a[p]);
        let t = choose|t: int| occurs_once(prev, t) && prev[t] == a[p];
        assert(a[p].0 != a[j].0);
        lemma_once_push(prev, e, t);
        assert(es[t] == prev[t]);
    }
    assert forall|t: int| occurs_once(es, t) implies exists|p: int| 0 <= p < a2.len() && a2[p] == es[t] by {
        if t < n {
            lemma_once_pop(prev, e, t);
            assert(es[t] == prev[t]);
            let p = choose|p: int| 0 <= p < a.len() && a[p] == prev[t];
            assert(p != j);
            assert(a2[p] == a[p]);
        } else {
            assert(es[jt] == prev[jt]);
            assert(es[jt].0 == es[n].0);
        }
    }
    assert forall|t: int| 0 <= t < es.len() implies exists|p: int|
        0 <= p < a2.len() && a2[p].0 == (#[trigger] es[t]).0 by {
        if t < n {
            assert(es[t] == prev[t]);
            let p = choose|p: int| 0 <= p < a.len() && a[p].0 == (#[trigger] prev[t]).0;
            assert(a2[p].0 == a[p].0);
        } else {
            assert(a2[j].0 == es[t].0);
        }
    }
    assert forall|p: int| 0 <= p < a2.len() implies exists|t: int|
        0 <= t < es.len() && (#[trigger] a2[p]).0 == es[t].0 by {
        assert(a2[p].0 == a[p].0);
        let t = choose|t: int| 0 <= t < prev.len() && (#[trigger] a[p]).0 == prev[t].0;
        assert(es[t] == prev[t]);
    }
}

/// The fold keeps one entry per key; an entry of the fold counts one
/// occurrence exactly when its key occurs once in `es`, and is then that
/// occurrence.
proof fn lemma_aggregate(es: Seq<(Seq<char>, Record)>)
    requires
        all_single(es),
    ensures
        aggregate_facts(es),
    decreases es.len(),
{
    if es.len() == 0 {
        assert(aggregate(es) =~= Seq::<(Seq<char>, Record)>::empty());
    } else {
        let prev = es.drop_last();
        let e = es.last();
        assert(es =~= prev.push(e));
        assert(e.1.count == 1);
        assert forall|t: int| 0 <= t < prev.len() implies (#[trigger] prev[t]).1.count == 1 by {
            assert(prev[t] == es[t]);
        }
        lemma_aggregate(prev);
        let a = aggregate(prev);
        lemma_key_position(a, e.0);
        let j = key_position(a, e.0);
        if j < 0 {
            lemma_aggregate_new_key(prev, e);
        } else {
            lemma_aggregate_known_key(prev, e, j);
        }
    }
}

/// `first_single` picks an entry counting one occurrence with the smallest
/// index among such entries, and finds one whenever there is one.
proof fn lemma_first_single(a: Seq<(Seq<char>, Record)>)
    ensures
        first_single(a) is None <==> forall|p: int| 0 <= p < a.len() ==> (#[trigger] a[p]).1.count != 1,
        first_single(a) matches Some(x) ==> {
            &&& exists|p: int| 0 <= p < a.len() && a[p] == x
            &&& x.1.count == 1
            &&& forall|p: int| 0 <= p < a.len() && (#[trigger] a[p]).1.count == 1 ==> x.1.index <= a[p].1.index
        },
    decreases a.len(),
{
    if a.len() > 0 {
        let prev = a.drop_last();
        lemma_first_single(prev);
        assert forall|p: int| 0 <= p < prev.len() implies prev[p] == a[p] by {}
        if let Some(x) = first_single(a) {
            if x == a.last() && x.1.count == 1 {
                assert(a[a.len() - 1] == x);
            }
        }
    }
}

/// `earliest` picks an entry with the smallest index, and finds one whenever
/// there is an entry.
proof fn lemma_earliest(a: Seq<(Seq<char>, Record)>)
    ensures
        earliest(a) is None <==> a.len() == 0,
        earliest(a) matches Some(x) ==> {
            &&& exists|p: int| 0 <= p < a.len() && a[p] == x
            &&& forall|p: int| 0 <= p < a.len() ==> x.1.index <= (#[trigger] a[p]).1.index
        },
    decreases a.len(),
{
    if a.len() > 0 {
        let prev = a.drop_last();
        lemma_earliest(prev);
        assert forall|p: int| 0 <= p < prev.len() implies prev[p] == a[p] by {}
        assert(a[a.len() - 1] == a.last());
    }
}

/// The local first unique of entries that each count once is an entry whose
/// key occurs once, with the smallest index among those; there is one
/// whenever such an entry exists.
proof fn lemma_local_first(es: Seq<(Seq<char>, Record)>)
    requires
        all_single(es),
    ensures
        local_first(es) is None <==> forall|t: int| !occurs_once(es, t),
        local_first(es) matches Some(x) ==> {
            &&& exists|t: int| occurs_once(es, t) && es[t] == x
            &&& forall|t: int| occurs_once(es, t) ==> x.1.index <= (#[trigger] es[t]).1.index
        },
{
    let a = aggregate(es);
    lemma_aggregate(es);
    assert(aggregate_facts(es));
    lemma_first_single(a);
    if let Some(x) = local_first(es) {
        let p = choose|p: int| 0 <= p < a.len() && a[p] == x;
        assert(a[p].1.count == 1);
        assert forall|t: int| occurs_once(es, t) implies x.1.index <= (#[trigger] es[t]).1.index by {
            let q = choose|q: int| 0 <= q < a.len() && a[q] == es[t];
            assert(es[t].1.count == 1);
            assert(a[q].1.count == 1);
        }
    } else {
        assert forall|t: int| !occurs_once(es, t) by {
            if occurs_once(es, t) {
                let q = choose|q: int| 0 <= q < a.len() && a[q] == es[t];
                assert(es[t].1.count == 1);
                assert(a[q].1.count == 1);
            }
        }
    }
}

/// The entry that line `i` of `keys` sends to its partition.
pub open spec fn line_entry(keys: Seq<Seq<char>>, i: int) -> (Seq<char>, Record) {
    (keys[i], Record { count: 1, index: i as u64 })
}

/// The key of line `i` occurs on no other line.
pub open spec fn unique_at(keys: Seq<Seq<char>>, i: int) -> bool {
    &&& 0 <= i < keys.len()
    &&& forall|j: int| 0 <= j < keys.len() && j != i ==> keys[j] != keys[i]
}

/// Line `i` is the first whose key occurs on no other line.
pub open spec fn is_first_unique(keys: Seq<Seq<char>>, i: int) -> bool {
    &&& unique_at(keys, i)
    &&& forall|j: int| 0 <= j < i ==> !unique_at(keys, j)
}

/// The key of the first line whose key occurs on no other line, if any.
pub open spec fn first_unique(keys: Seq<Seq<char>>) -> Option<Seq<char>> {
    if exists|i: int| is_first_unique(keys, i) {
        Some(keys[choose|i: int| is_first_unique(keys, i)])
    } else {
        None
    }
}

/// `e` is the entry of a line of `keys` whose key falls in partition `q`.
spec fn from_line(keys: Seq<Seq<char>>, size: u32, q: int, e: (Seq<char>, Record)) -> bool {
    exists|i: int| 0 <= i < keys.len() && partition_of(keys[i], size) == q && e == line_entry(keys, i)
}

/// What `partition_entries` holds, as `lemma_partition_entries` states it.
spec fn partition_facts(keys: Seq<Seq<char>>, size: u32, q: int) -> bool {
    let es = partition_entries(keys, size, q, 0);
    &&& forall|t: int| 0 <= t < es.len() ==> from_line(keys, size, q, #[trigger] es[t])
    &&& forall|i: int|
        0 <= i < keys.len() && partition_of(#[trigger] keys[i], size) == q ==> exists|t: int|
            0 <= t < es.len() && es[t] == line_entry(keys, i)
    &&& forall|t1: int, t2: int|
        0 <= t1 < t2 < es.len() ==> (#[trigger] es[t1]).1.index < (#[trigger] es[t2]).1.index
    &&& forall|t: int| 0 <= t < es.len() ==> (#[trigger] es[t]).1.index < keys.len()
}

#[verifier::rlimit(40)]
proof fn lemma_partition_entries_taken(keys: Seq<Seq<char>>, size: u32, q: int)
    requires
        0 < keys.len() <= u64::MAX,
        partition_facts(keys.drop_last(), size, q),
        partition_of(keys.last(), size) == q,
    ensures
        partition_facts(keys, size, q),
{
    let prev = keys.drop_last();
    let n = keys.len() - 1;
    let es0 = partition_entries(prev, size, q, 0);
    let es = partition_entries(keys, size, q, 0);
    assert forall|i: int| 0 <= i < n implies line_entry(prev, i) == line_entry(keys, i) && prev[i]
        == keys[i] by {}
    assert(es == es0.push(line_entry(keys, n)));
    assert forall|t: int| 0 <= t < es.len() implies from_line(keys, size, q, #[trigger] es[t]) by {
        if t < es0.len() {
            assert(es[t] == es0[t]);
            assert(from_line(prev, size, q, es0[t]));
            let i = choose|i: int|
                0 <= i < prev.len() && partition_of(prev[i], size) == q && es0[t] == line_entry(prev, i);
            assert(line_entry(prev, i) == line_entry(keys, i));
        } else {
            assert(es[t] == line_entry(keys, n));
        }
    }
    assert forall|i: int|
        0 <= i < keys.len() && partition_of(#[trigger] keys[i], size) == q implies exists|t: int|
        0 <= t < es.len() && es[t] == line_entry(keys, i) by {
        if i < n {
            assert(prev[i] == keys[i]);
            let t = choose|t: int| 0 <= t < es0.len() && es0[t] == line_entry(prev, i);
            assert(es[t] == es0[t]);
        } else {
            assert(es[es0.len() as int] == line_entry(keys, n));
        }
    }
    assert forall|t: int| 0 <= t < es.len() implies (#[trigger] es[t]).1.index < keys.len() by {
        if t < es0.len() {
            assert(es[t] == es0[t]);
        } else {
            assert(es[t] == line_entry(keys, n));
        }
    }
    assert forall|t1: int, t2: int| 0 <= t1 < t2 < es.len() implies (#[trigger] es[t1]).1.index
        < (#[trigger] es[t2]).1.index by {
        assert(es[t1] == es0[t1]);
        assert(es0[t1].1.index < prev.len());
        if t2 < es0.len() {
            assert(es[t2] == es0[t2]);
        } else {
            assert(es[t2] == line_entry(keys, n));
        }
    }
}

#[verifier::rlimit(40)]
proof fn lemma_partition_entries_skipped(keys: Seq<Seq<char>>, size: u32, q: int)
    requires
        0 < keys.len() <= u64::MAX,
        partition_facts(keys.drop_last(), size, q),
        partition_of(keys.last(), size) != q,
    ensures
        partition_facts(keys, size, q),
{
    let prev = keys.drop_last();
    let n = keys.len() - 1;
    let es0 = partition_entries(prev, size, q, 0);
    let es = partition_entries(keys, size, q, 0);
    assert forall|i: int| 0 <= i < n implies line_entry(prev, i) == line_entry(keys, i) && prev[i]
        == keys[i] by {}
    assert(es == es0);
    assert forall|t: int| 0 <= t < es.len() implies from_line(keys, size, q, #[trigger] es[t]) by {
        assert(es[t] == es0[t]);
        assert(from_line(prev, size, q, es0[t]));
        let i = choose|i: int|
            0 <= i < prev.len() && partition_of(prev[i], size) == q && es0[t] == line_entry(prev, i);
        assert(line_entry(prev, i) == line_entry(keys, i));
        assert(keys[i] == prev[i]);
        assert(0 <= i < keys.len() && partition_of(keys[i], size) == q && es[t] == line_entry(
            keys,
            i,
        ));
    }
    assert forall|i: int|
        0 <= i < keys.len() && partition_of(#[trigger] keys[i], size) == q implies exists|t: int|
        0 <= t < es.len() && es[t] == line_entry(keys, i) by {
        assert(i < n);
        assert(prev[i] == keys[i]);
        let t = choose|t: int| 0 <= t < es0.len() && es0[t] == line_entry(prev, i);
    }
    assert forall|t: int| 0 <= t < es.len() implies (#[trigger] es[t]).1.index < keys.len() by {
        assert(es[t] == es0[t]);
    }
    assert forall|t1: int, t2: int| 0 <= t1 < t2 < es.len() implies (#[trigger] es[t1]).1.index
        < (#[trigger] es[t2]).1.index by {
        assert(es[t1] == es0[t1]);
        assert(es[t2] == es0[t2]);
    }
}

/// Partition `q` holds one entry per line whose key falls in `q`, in the
/// order of the lines.
proof fn lemma_partition_entries(keys: Seq<Seq<char>>, size: u32, q: int)
    requires
        keys.len() <= u64::MAX,
    ensures
        partition_facts(keys, size, q),
    decreases keys.len(),
{
    if keys.len() == 0 {
        assert(partition_entries(keys, size, q, 0) =~= Seq::<(Seq<char>, Record)>::empty());
    } else {
        lemma_partition_entries(keys.drop_last(), size, q);
        if partition_of(keys.last(), size) == q {
            lemma_partition_entries_taken(keys, size, q);
        } else {
            lemma_partition_entries_skipped(keys, size, q);
        }
    }
}

/// In partition `q`, an entry occurs once exactly when its line's key
/// occurs once in the input.
proof fn lemma_partition_local(keys: Seq<Seq<char>>, size: u32, q: int)
    requires
        keys.len() <= u64::MAX,
    ensures
        all_single(partition_entries(keys, size, q, 0)),
        local_first(partition_entries(keys, size, q, 0)) is None <==> forall|i: int|
            !(unique_at(keys, i) && partition_of(keys[i], size) == q),
        local_first(partition_entries(keys, size, q, 0)) matches Some(x) ==> exists|i: int|
            {
                &&& unique_at(keys, i)
                &&& partition_of(keys[i], size) == q
                &&& x == line_entry(keys, i)
                &&& forall|k: int|
                    unique_at(keys, k) && partition_of(keys[k], size) == q ==> i <= k
            },
{
    let es = partition_entries(keys, size, q, 0);
    lemma_partition_entries(keys, size, q);
    assert forall|t: int| 0 <= t < es.len() implies (#[trigger] es[t]).1.count == 1 by {
        assert(from_line(keys, size, q, es[t]));
        let i = choose|i: int| 0 <= i < keys.len() && partition_of(keys[i], size) == q && es[t] == line_entry(keys, i);
    }
    lemma_local_first(es);
    // A unique line of `q` is an entry of `es` that occurs once.
    assert forall|k: int| unique_at(keys, k) && partition_of(keys[k], size) == q implies exists|t: int|
        occurs_once(es, t) && es[t] == line_entry(keys, k) by {
        assert(partition_of(keys[k], size) == q);
        let t = choose|t: int| 0 <= t < es.len() && es[t] == line_entry(keys, k);
        assert forall|u: int| 0 <= u < es.len() && u != t implies es[u].0 != es[t].0 by {
            assert(from_line(keys, size, q, es[u]));
        let i = choose|i: int| 0 <= i < keys.len() && partition_of(keys[i], size) == q && es[u] == line_entry(keys, i);
            if es[u].0 == es[t].0 {
                assert(keys[i] == keys[k]);
                assert(i == k);
                if u < t {
                    assert(es[u].1.index < es[t].1.index);
                } else {
                    assert(es[t].1.index < es[u].1.index);
                }
            }
        }
        assert(occurs_once(es, t));
    }
    // An entry of `es` that occurs once is a unique line of `q`.
    assert forall|t: int| occurs_once(es, t) implies exists|i: int|
        unique_at(keys, i) && partition_of(keys[i], size) == q && es[t] == line_entry(keys, i) by {
        assert(from_line(keys, size, q, es[t]));
        let i = choose|i: int| 0 <= i < keys.len() && partition_of(keys[i], size) == q && es[t] == line_entry(keys, i);
        assert forall|j: int| 0 <= j < keys.len() && j != i implies keys[j] != keys[i] by {
            if keys[j] == keys[i] {
                assert(partition_of(keys[j], size) == q);
                let u = choose|u: int| 0 <= u < es.len() && es[u] == line_entry(keys, j);
                assert(es[u].0 == es[t].0);
                assert(u == t);
            }
        }
    }
    if let Some(x) = local_first(es) {
        let t = choose|t: int| occurs_once(es, t) && es[t] == x;
        let i = choose|i: int| unique_at(keys, i) && partition_of(keys[i], size) == q && es[t] == line_entry(keys, i);
        assert forall|k: int| unique_at(keys, k) && partition_of(keys[k], size) == q implies i <= k by {
            let u = choose|u: int| occurs_once(es, u) && es[u] == line_entry(keys, k);
            assert(x.1.index <= es[u].1.index);
        }
    } else {
        assert forall|k: int| !(unique_at(keys, k) && partition_of(keys[k], size) == q) by {
            if unique_at(keys, k) && partition_of(keys[k], size) == q {
                let u = choose|u: int| occurs_once(es, u) && es[u] == line_entry(keys, k);
            }
        }
    }
}

/// Each candidate comes from some partition, and each partition's candidate
/// is among them.
proof fn lemma_candidates(parts: Seq<Seq<u8>>)
    ensures
        forall|c: int|
            0 <= c < candidates(parts).len() ==> exists|t: int|
                0 <= t < parts.len() && partition_candidate(parts[t]) == Some(
                    #[trigger] candidates(parts)[c],
                ),
        forall|t: int|
            0 <= t < parts.len() && (#[trigger] partition_candidate(parts[t])) is Some ==> exists|c: int|
                0 <= c < candidates(parts).len() && candidates(parts)[c] == partition_candidate(
                    parts[t],
                )->0,
    decreases parts.len(),
{
    if parts.len() > 0 {
        let prev = parts.drop_last();
        let n = parts.len() - 1;
        lemma_candidates(prev);
        let cs0 = candidates(prev);
        let cs = candidates(parts);
        assert forall|t: int| 0 <= t < n implies prev[t] == parts[t] by {}
        assert forall|c: int| 0 <= c < cs.len() implies exists|t: int|
            0 <= t < parts.len() && partition_candidate(parts[t]) == Some(#[trigger] cs[c]) by {
            if c < cs0.len() {
                assert(cs[c] == cs0[c]);
                let t = choose|t: int| 0 <= t < prev.len() && partition_candidate(prev[t]) == Some(#[trigger] cs0[c]);
            } else {
                assert(partition_candidate(parts[n]) == Some(cs[c]));
            }
        }
        assert forall|t: int|
            0 <= t < parts.len() && (#[trigger] partition_candidate(parts[t])) is Some implies exists|c: int|
            0 <= c < cs.len() && cs[c] == partition_candidate(parts[t])->0 by {
            if t < n {
                assert(partition_candidate(prev[t]) is Some);
                let c = choose|c: int| 0 <= c < cs0.len() && cs0[c] == partition_candidate(prev[t])->0;
                assert(cs[c] == cs0[c]);
            } else {
                assert(cs[cs0.len() as int] == partition_candidate(parts[n])->0);
            }
        }
    }
}

proof fn lemma_first_unique_exists(keys: Seq<Seq<char>>, i: int)
    requires
        unique_at(keys, i),
    ensures
        exists|k: int| is_first_unique(keys, k),
    decreases i,
{
    if !is_first_unique(keys, i) {
        let j = choose|j: int| 0 <= j < i && unique_at(keys, j);
        lemma_first_unique_exists(keys, j);
    }
}

/// The bytes of the partitions of a shuffle of `keys`, numbered from zero,
/// taken in `order`.
pub open spec fn shuffle_parts(keys: Seq<Seq<char>>, size: u32, order: Seq<int>) -> Seq<Seq<u8>> {
    Seq::new(order.len(), |t: int| partition_bytes(keys, size, order[t], 0))
}

/// Each partition's bytes parse back to its entries, so it offers its local
/// first unique.
proof fn lemma_part_candidate(keys: Seq<Seq<char>>, size: u32, q: int)
    requires
        keys.len() <= u64::MAX,
        forall|i: int| 0 <= i < keys.len() ==> encode_utf8(#[trigger] keys[i]).len() <= u64::MAX,
    ensures
        partition_candidate(partition_bytes(keys, size, q, 0)) == local_first(
            partition_entries(keys, size, q, 0),
        ),
{
    let es = partition_entries(keys, size, q, 0);
    lemma_partition_entries(keys, size, q);
    assert forall|u: int| 0 <= u < es.len() implies encodable(#[trigger] es[u]) by {
        assert(from_line(keys, size, q, es[u]));
        let i = choose|i: int| 0 <= i < keys.len() && partition_of(keys[i], size) == q && es[u] == line_entry(keys, i);
    }
    lemma_blocks_round_trip(es);
}

/// `e` is the entry of a line whose key occurs once.
spec fn unique_line_entry(keys: Seq<Seq<char>>, e: (Seq<char>, Record)) -> bool {
    exists|i: int| unique_at(keys, i) && e == line_entry(keys, i)
}

/// Each partition of a shuffle offers its local first unique.
proof fn lemma_all_part_candidates(keys: Seq<Seq<char>>, size: u32, order: Seq<int>)
    requires
        keys.len() <= u64::MAX,
        forall|i: int| 0 <= i < keys.len() ==> encode_utf8(#[trigger] keys[i]).len() <= u64::MAX,
    ensures
        forall|t: int|
            0 <= t < order.len() ==> #[trigger] partition_candidate(shuffle_parts(keys, size, order)[t])
                == local_first(partition_entries(keys, size, order[t], 0)),
{
    assert forall|t: int| 0 <= t < order.len() implies #[trigger] partition_candidate(
        shuffle_parts(keys, size, order)[t],
    ) == local_first(partition_entries(keys, size, order[t], 0)) by {
        lemma_part_candidate(keys, size, order[t]);
    }
}

/// Every candidate of the partitions of a shuffle is the entry of a line
/// whose key occurs once.
#[verifier::rlimit(40)]
proof fn lemma_candidates_are_unique_lines(keys: Seq<Seq<char>>, size: u32, order: Seq<int>)
    requires
        keys.len() <= u64::MAX,
        forall|i: int| 0 <= i < keys.len() ==> encode_utf8(#[trigger] keys[i]).len() <= u64::MAX,
    ensures
        forall|c: int|
            0 <= c < candidates(shuffle_parts(keys, size, order)).len() ==> unique_line_entry(
                keys,
                #[trigger] candidates(shuffle_parts(keys, size, order))[c],
            ),
{
    let parts = shuffle_parts(keys, size, order);
    let cs = candidates(parts);
    lemma_all_part_candidates(keys, size, order);
    lemma_candidates(parts);
    assert forall|c: int| 0 <= c < cs.len() implies unique_line_entry(keys, #[trigger] cs[c]) by {
        let t = choose|t: int| 0 <= t < parts.len() && partition_candidate(parts[t]) == Some(#[trigger] cs[c]);
        assert(partition_candidate(parts[t]) == local_first(partition_entries(keys, size, order[t], 0)));
        lemma_partition_local(keys, size, order[t]);
        let x = local_first(partition_entries(keys, size, order[t], 0))->0;
        assert(x == cs[c]);
        let i = choose|i: int|
            {
                &&& unique_at(keys, i)
                &&& partition_of(keys[i], size) == order[t]
                &&& x == line_entry(keys, i)
                &&& forall|k: int| unique_at(keys, k) && partition_of(keys[k], size) == order[t] ==> i <= k
            };
    }
}

/// Partition `q` comes up somewhere in `order`.
pub open spec fn reaches(order: Seq<int>, q: int) -> bool {
    exists|t: int| 0 <= t < order.len() && order[t] == q
}

/// Reducing the partitions of a shuffle of `keys`, numbered from zero, in any
/// order that reaches every partition, returns the key of the first line
/// whose key occurs on no other line, and nothing where there is none.
pub proof fn lemma_reduce_in_any_order(keys: Seq<Seq<char>>, size: u32, order: Seq<int>)
    requires
        size >= 1,
        keys.len() <= u64::MAX,
        forall|i: int| 0 <= i < keys.len() ==> encode_utf8(#[trigger] keys[i]).len() <= u64::MAX,
        forall|q: int| 0 <= q < size ==> #[trigger] reaches(order, q),
    ensures
        reduce_result(shuffle_parts(keys, size, order))
            == first_unique(keys),
{
    let parts = shuffle_parts(keys, size, order);
    let cs = candidates(parts);
    lemma_all_part_candidates(keys, size, order);
    lemma_candidates(parts);
    lemma_candidates_are_unique_lines(keys, size, order);
    lemma_earliest(cs);
    if exists|k: int| unique_at(keys, k) {
        let k = choose|k: int| unique_at(keys, k);
        lemma_first_unique_exists(keys, k);
        let f = choose|i: int| is_first_unique(keys, i);
        let qf = partition_of(keys[f], size) as int;
        crate::shuffle::lemma_partition_in_range(keys[f], size);
        assert(reaches(order, qf));
        let tf = choose|t: int| 0 <= t < order.len() && order[t] == qf;
        lemma_partition_local(keys, size, qf);
        let x = local_first(partition_entries(keys, size, qf, 0))->0;
        let i = choose|i: int|
            {
                &&& unique_at(keys, i)
                &&& partition_of(keys[i], size) == qf
                &&& x == line_entry(keys, i)
                &&& forall|k: int| unique_at(keys, k) && partition_of(keys[k], size) == qf ==> i <= k
            };
        assert(i == f);
        assert(partition_candidate(parts[tf]) == Some(x));
        let c = choose|c: int| 0 <= c < cs.len() && cs[c] == partition_candidate(parts[tf])->0;
        let y = earliest(cs)->0;
        let p = choose|p: int| 0 <= p < cs.len() && cs[p] == y;
        assert(unique_line_entry(keys, cs[p]));
        let i2 = choose|i2: int| unique_at(keys, i2) && cs[p] == line_entry(keys, i2);
        assert(y.1.index <= cs[c].1.index);
        assert(i2 == f);
    } else {
        if cs.len() > 0 {
            assert(unique_line_entry(keys, cs[0]));
            let i = choose|i: int| unique_at(keys, i) && cs[0] == line_entry(keys, i);
        }
        assert(!exists|i: int| is_first_unique(keys, i));
    }
}

/// Reducing the partitions of a shuffle of `keys` in their own order returns
/// the key of the first line whose key occurs on no other line, and nothing
/// where there is none.
pub proof fn lemma_reduce_finds_first_unique(keys: Seq<Seq<char>>, size: u32)
    requires
        size >= 1,
        keys.len() <= u64::MAX,
        forall|i: int| 0 <= i < keys.len() ==> encode_utf8(#[trigger] keys[i]).len() <= u64::MAX,
    ensures
        reduce_result(Seq::new(size as nat, |q: int| partition_bytes(keys, size, q, 0)))
            == first_unique(keys),
{
    let order = Seq::new(size as nat, |q: int| q);
    assert forall|q: int| 0 <= q < size implies #[trigger] reaches(order, q) by {
        assert(order[q] == q);
    }
    lemma_reduce_in_any_order(keys, size, order);
    assert(shuffle_parts(keys, size, order) =~= Seq::new(
        size as nat,
        |q: int| partition_bytes(keys, size, q, 0),
    ));
}

/// A sequence of blocks is at least as long as any one of them.
proof fn lemma_block_within(es: Seq<(Seq<char>, Record)>, t: int)
    requires
        0 <= t < es.len(),
    ensures
        block_bytes(es[t]).len() <= blocks_bytes(es).len(),
    decreases es.len(),
{
    if t > 0 {
        lemma_block_within(es.drop_first(), t - 1);
    }
}

/// Where every partition fits in memory, so does every key: its block is in
/// its partition.
pub proof fn lemma_keys_fit(keys: Seq<Seq<char>>, size: u32)
    requires
        size >= 1,
        keys.len() <= u64::MAX,
        partitions_fit(keys, size, 0),
    ensures
        forall|i: int| 0 <= i < keys.len() ==> encode_utf8(#[trigger] keys[i]).len() <= u64::MAX,
{
    assert forall|i: int| 0 <= i < keys.len() implies encode_utf8(#[trigger] keys[i]).len() <= u64::MAX by {
        let q = partition_of(keys[i], size) as int;
        lemma_partition_in_range(keys[i], size);
        lemma_partition_entries(keys, size, q);
        let es = partition_entries(keys, size, q, 0);
        let t = choose|t: int| 0 <= t < es.len() && es[t] == line_entry(keys, i);
        lemma_block_within(es, t);
        assert(partition_bytes(keys, size, q, 0).len() <= isize::MAX);
    }
}

/// The bytes of each partition of a shuffle parse back to the entries that
/// the partition received.
pub proof fn lemma_shuffle_parses(keys: Seq<Seq<char>>, size: u32, q: int)
    requires
        keys.len() <= u64::MAX,
        forall|i: int| 0 <= i < keys.len() ==> encode_utf8(#[trigger] keys[i]).len() <= u64::MAX,
    ensures
        parse_blocks(partition_bytes(keys, size, q, 0)) == Some(partition_entries(keys, size, q, 0)),
{
    let es = partition_entries(keys, size, q, 0);
    lemma_partition_entries(keys, size, q);
    assert forall|u: int| 0 <= u < es.len() implies encodable(#[trigger] es[u]) by {
        assert(from_line(keys, size, q, es[u]));
        let i = choose|i: int| 0 <= i < keys.len() && partition_of(keys[i], size) == q && es[u] == line_entry(keys, i);
    }
    lemma_blocks_round_trip(es);
}

/// Every entry that partition `q` of a shuffle receives has a key that falls
/// in `q`: all lines with one key land in one partition.
pub proof fn lemma_key_in_one_partition(keys: Seq<Seq<char>>, size: u32, q: int, t: int)
    requires
        keys.len() <= u64::MAX,
        0 <= t < partition_entries(keys, size, q, 0).len(),
    ensures
        partition_of(partition_entries(keys, size, q, 0)[t].0, size) == q,
{
    let es = partition_entries(keys, size, q, 0);
    lemma_partition_entries(keys, size, q);
    assert(from_line(keys, size, q, es[t]));
}

} // verus!

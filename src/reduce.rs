//! The two-phase reduce: each partition folds its entries by key and offers
//! its earliest single-occurrence key; the earliest of those offers wins.

use vstd::prelude::*;
use vstd::utf8::*;

use crate::entry::{entries_view, parse_blocks, Block, Entry, Record};
use crate::shuffle::{hash_bytes, key_hash, Group};

verus! {

/// The record of both occurrences, its count held at `u64::MAX` where the
/// sum would not fit.
pub open spec fn merge_capped(a: Record, b: Record) -> Record {
    Record {
        count: if a.count + b.count <= u64::MAX {
            (a.count + b.count) as u64
        } else {
            u64::MAX
        },
        index: if a.index < b.index {
            a.index
        } else {
            b.index
        },
    }
}

/// Where `k` stands in `a`, or -1.
pub open spec fn key_position(a: Seq<(Seq<char>, Record)>, k: Seq<char>) -> int
    decreases a.len(),
{
    if a.len() == 0 {
        -1
    } else if a.last().0 == k {
        a.len() - 1
    } else {
        key_position(a.drop_last(), k)
    }
}

/// No key stands twice in `a`.
pub open spec fn unique_keys(a: Seq<(Seq<char>, Record)>) -> bool {
    forall|i: int, j: int| 0 <= i < a.len() && 0 <= j < a.len() && i != j ==> a[i].0 != a[j].0
}

/// The entries of `es` folded by key: one entry per key, in the order the
/// keys first occur, with the merged record of all its occurrences.
pub open spec fn aggregate(es: Seq<(Seq<char>, Record)>) -> Seq<(Seq<char>, Record)>
    decreases es.len(),
{
    if es.len() == 0 {
        Seq::empty()
    } else {
        let a = aggregate(es.drop_last());
        let e = es.last();
        let j = key_position(a, e.0);
        if j < 0 {
            a.push(e)
        } else {
            a.update(j, (e.0, merge_capped(a[j].1, e.1)))
        }
    }
}

/// The entry of `a` with the smallest index, the first of them on a tie.
pub open spec fn earliest(a: Seq<(Seq<char>, Record)>) -> Option<(Seq<char>, Record)>
    decreases a.len(),
{
    if a.len() == 0 {
        None
    } else {
        let m = earliest(a.drop_last());
        let x = a.last();
        if m is None || x.1.index < (m->0).1.index {
            Some(x)
        } else {
            m
        }
    }
}

/// The entry of `a` that counts one occurrence and has the smallest index,
/// the first of them on a tie.
pub open spec fn first_single(a: Seq<(Seq<char>, Record)>) -> Option<(Seq<char>, Record)>
    decreases a.len(),
{
    if a.len() == 0 {
        None
    } else {
        let m = first_single(a.drop_last());
        let x = a.last();
        if x.1.count == 1 && (m is None || x.1.index < (m->0).1.index) {
            Some(x)
        } else {
            m
        }
    }
}

/// The local first unique of a partition's entries.
pub open spec fn local_first(es: Seq<(Seq<char>, Record)>) -> Option<(Seq<char>, Record)> {
    first_single(aggregate(es))
}

/// The key of an entry, if there is one.
pub open spec fn key_of(o: Option<(Seq<char>, Record)>) -> Option<Seq<char>> {
    match o {
        Some(e) => Some(e.0),
        None => None,
    }
}

/// The bucket of key `k` among `n`.
pub open spec fn bucket_of(k: Seq<char>, n: nat) -> int {
    (key_hash(encode_utf8(k)) as int) % (n as int)
}

/// Index `j` is filed in bucket `c`.
spec fn in_bucket(buckets: Seq<Vec<usize>>, c: int, j: int) -> bool {
    exists|t: int| 0 <= t < buckets[c]@.len() && buckets[c]@[t] == j
}

/// Where `key_position` points, the key stands; where it finds nothing, the
/// key stands nowhere.
pub proof fn lemma_key_position(a: Seq<(Seq<char>, Record)>, k: Seq<char>)
    ensures
        -1 <= key_position(a, k) < a.len(),
        key_position(a, k) >= 0 ==> a[key_position(a, k)].0 == k,
        key_position(a, k) < 0 ==> forall|j: int| 0 <= j < a.len() ==> a[j].0 != k,
    decreases a.len(),
{
    if a.len() > 0 {
        lemma_key_position(a.drop_last(), k);
        if key_position(a, k) < 0 {
            assert forall|j: int| 0 <= j < a.len() implies a[j].0 != k by {
                if j < a.len() - 1 {
                    assert(a.drop_last()[j] == a[j]);
                }
            }
        }
    }
}

/// The record merged into an entry of the fold.
fn merge_into(old: &Record, new: &Record) -> (r: Record)
    ensures
        r == merge_capped(*old, *new),
{
    if old.count <= u64::MAX - new.count {
        new.merge(old)
    } else {
        let index = if old.index < new.index {
            old.index
        } else {
            new.index
        };
        Record { count: u64::MAX, index }
    }
}

/// Folds `entries` by key: one entry per key, in the order the keys first
/// occur, each with the merged record of its occurrences.
pub fn merge_entries(entries: &Vec<Entry>) -> (r: Vec<Entry>)
    ensures
        entries_view(r@) == aggregate(entries_view(entries@)),
{
    let ghost es = entries_view(entries@);
    let n = entries.len();
    let nb: usize = if n < 65536 {
        n + 1
    } else {
        65536
    };
    let mut buckets: Vec<Vec<usize>> = Vec::new();
    let mut b: usize = 0;
    while b < nb
        invariant
            b <= nb,
            buckets@.len() == b,
            forall|t: int| 0 <= t < b ==> (#[trigger] buckets@[t])@.len() == 0,
        decreases nb - b,
    {
        buckets.push(Vec::new());
        b = b + 1;
    }
    let mut items: Vec<Entry> = Vec::new();
    let mut i: usize = 0;
    while i < n
        invariant
            n == entries@.len(),
            es == entries_view(entries@),
            1 <= nb,
            buckets@.len() == nb,
            i <= n,
            entries_view(items@) == aggregate(es.subrange(0, i as int)),
            unique_keys(entries_view(items@)),
            forall|c: int, t: int|
                0 <= c < nb && 0 <= t < buckets@[c]@.len() ==> {
                    let j = #[trigger] buckets@[c]@[t];
                    &&& j < items@.len()
                    &&& bucket_of(items@[j as int].key@, nb as nat) == c
                },
            forall|j: int|
                0 <= j < items@.len() ==> in_bucket(
                    buckets@,
                    bucket_of((#[trigger] items@[j]).key@, nb as nat),
                    j,
                ),
        decreases n - i,
    {
        let ghost a = entries_view(items@);
        let ghost items0 = items@;
        let ghost buckets0 = buckets@;
        let key = &entries[i].key;
        let h = hash_bytes(key.as_str().as_bytes());
        let c = (h % (nb as u64)) as usize;
        assert(c == bucket_of(key@, nb as nat));
        let mut found: Option<usize> = None;
        let mut t: usize = 0;
        while found.is_none() && t < buckets[c].len()
            invariant
                c < nb,
                buckets@.len() == nb,
                t <= buckets@[c as int]@.len(),
                forall|s: int| 0 <= s < t ==> items@[buckets@[c as int]@[s] as int].key@ != key@,
                forall|s: int|
                    0 <= s < buckets@[c as int]@.len() ==> #[trigger] buckets@[c as int]@[s]
                        < items@.len(),
                found matches Some(j) ==> j < items@.len() && items@[j as int].key@ == key@,
            decreases buckets@[c as int]@.len() - t + if found is None {
                1int
            } else {
                0int
            },
        {
            let j = buckets[c][t];
            if items[j].key == *key {
                found = Some(j);
            } else {
                t = t + 1;
            }
        }
        proof {
            lemma_key_position(a, key@);
            assert(es.subrange(0, i + 1).drop_last() =~= es.subrange(0, i as int));
            assert(es.subrange(0, i + 1).last() == entries@[i as int]@);
        }
        match found {
            Some(j) => {
                proof {
                    if key_position(a, key@) != j {
                        assert(a[key_position(a, key@)].0 == a[j as int].0);
                    }
                }
                let record = merge_into(&items[j].record, &entries[i].record);
                items[j].record = record;
                proof {
                    assert(entries_view(items@) =~= a.update(j as int, (key@, record)));
                    assert forall|k: int| 0 <= k < items@.len() implies in_bucket(
                        buckets@,
                        bucket_of((#[trigger] items@[k]).key@, nb as nat),
                        k,
                    ) by {
                        assert(items0[k].key@ == items@[k].key@);
                    }
                }
            },
            None => {
                proof {
                    if key_position(a, key@) >= 0 {
                        let k = key_position(a, key@);
                        assert(items@[k].key@ == key@);
                        assert(in_bucket(buckets@, bucket_of(items@[k].key@, nb as nat), k));
                        let s = choose|s: int|
                            0 <= s < buckets@[c as int]@.len() && buckets@[c as int]@[s] == k;
                        assert(items@[buckets@[c as int]@[s] as int].key@ == key@);
                    }
                }
                let j = items.len();
                items.push(Entry { key: key.clone(), record: entries[i].record });
                buckets[c].push(j);
                proof {
                    assert(entries_view(items@) =~= a.push(entries@[i as int]@));
                    assert forall|k: int| 0 <= k < items@.len() implies in_bucket(
                        buckets@,
                        bucket_of((#[trigger] items@[k]).key@, nb as nat),
                        k,
                    ) by {
                        if k == j {
                            assert(buckets@[c as int]@[buckets@[c as int]@.len() - 1] == k);
                        } else {
                            let cc = bucket_of(items@[k].key@, nb as nat);
                            assert(items0[k] == items@[k]);
                            assert(in_bucket(buckets0, cc, k));
                            let s = choose|s: int| 0 <= s < buckets0[cc]@.len() && buckets0[cc]@[s] == k;
                            assert(buckets@[cc]@[s] == k);
                        }
                    }
                }
            },
        }
        i = i + 1;
    }
    assert(es.subrange(0, n as int) =~= es);
    items
}

/// The entry of `items` that counts one occurrence and has the smallest
/// index, the first of them on a tie.
pub fn find_first_entry_from_reduced_map(items: &Vec<Entry>) -> (r: Option<Entry>)
    ensures
        r is Some <==> first_single(entries_view(items@)) is Some,
        r matches Some(e) ==> first_single(entries_view(items@)) == Some(e@),
{
    let ghost a = entries_view(items@);
    let mut best: Option<usize> = None;
    let mut i: usize = 0;
    while i < items.len()
        invariant
            a == entries_view(items@),
            i <= items@.len(),
            first_single(a.subrange(0, i as int)) == match best {
                Some(j) => Some(a[j as int]),
                None => None,
            },
            best matches Some(j) ==> j < i,
        decreases items@.len() - i,
    {
        proof {
            assert(a.subrange(0, i + 1).drop_last() =~= a.subrange(0, i as int));
        }
        let record = items[i].record;
        let better = match best {
            Some(j) => record.index < items[j].record.index,
            None => true,
        };
        if record.count == 1 && better {
            best = Some(i);
        }
        i = i + 1;
    }
    assert(a.subrange(0, i as int) =~= a);
    match best {
        Some(j) => Some(Entry::from_record(items[j].key.clone(), items[j].record)),
        None => None,
    }
}

/// The local first unique of a partition's blocks: `None` where `buf` is not
/// a sequence of whole blocks, else the entry, if any, whose key occurs once
/// and earliest.
pub fn reduce_local_unique(buf: &[u8]) -> (r: Option<Option<Entry>>)
    ensures
        r is Some <==> parse_blocks(buf@) is Some,
        r matches Some(o) ==> (o is Some <==> local_first(parse_blocks(buf@)->0) is Some),
        r matches Some(Some(e)) ==> local_first(parse_blocks(buf@)->0) == Some(e@),
{
    let entries = match Block::parse_entries(buf) {
        Some(entries) => entries,
        None => {
            return None;
        },
    };
    let merged = merge_entries(&entries);
    Some(find_first_entry_from_reduced_map(&merged))
}

/// What a partition offers: its local first unique, if its blocks parse.
pub open spec fn partition_candidate(b: Seq<u8>) -> Option<(Seq<char>, Record)> {
    match parse_blocks(b) {
        Some(es) => local_first(es),
        None => None,
    }
}

/// What the partitions offer, in their order.
pub open spec fn candidates(parts: Seq<Seq<u8>>) -> Seq<(Seq<char>, Record)>
    decreases parts.len(),
{
    if parts.len() == 0 {
        Seq::empty()
    } else {
        let prev = candidates(parts.drop_last());
        match partition_candidate(parts.last()) {
            Some(e) => prev.push(e),
            None => prev,
        }
    }
}

/// The bytes of each partition.
pub open spec fn parts_view(parts: Seq<Vec<u8>>) -> Seq<Seq<u8>> {
    parts.map_values(|p: Vec<u8>| p@)
}

/// Partition `q` is the first whose blocks do not parse.
pub open spec fn first_malformed(parts: Seq<Seq<u8>>, q: int) -> bool {
    &&& 0 <= q < parts.len()
    &&& parse_blocks(parts[q]) is None
    &&& forall|j: int| 0 <= j < q ==> parse_blocks(#[trigger] parts[j]) is Some
}

/// The key that a reduce of `parts` returns.
pub open spec fn reduce_result(parts: Seq<Seq<u8>>) -> Option<Seq<char>> {
    key_of(earliest(candidates(parts)))
}

/// Why a reduce failed.
#[derive(Clone, Copy, Debug, PartialEq, Eq, Structural)]
pub enum ReduceError {
    /// The number of partitions given is not the group's.
    PartitionCount { expected: u32, found: usize },
    /// The partition's bytes are not a sequence of whole blocks.
    Malformed { partition: u32 },
}

/// The reduce of one shuffle group.
pub struct Reducer {
    group: Group,
}

impl View for Reducer {
    type V = Group;

    closed spec fn view(&self) -> Group {
        self.group
    }
}

impl Reducer {
    /// A reducer for the shuffle of `group`.
    pub fn new(group: Group) -> (r: Reducer)
        ensures
            r@ == group,
    {
        Reducer { group }
    }

    /// The first unique key of the shuffle of `group`, whose partitions hold
    /// `partitions`.
    pub fn for_first_unique(group: Group, partitions: &Vec<Vec<u8>>) -> (r: Result<
        Option<String>,
        ReduceError,
    >)
        ensures
            partitions@.len() != group.size ==> r == Err::<Option<String>, ReduceError>(
                ReduceError::PartitionCount { expected: group.size, found: partitions@.len() as usize },
            ),
            partitions@.len() == group.size ==> {
                &&& r matches Err(e) ==> e matches ReduceError::Malformed { partition }
                    && first_malformed(parts_view(partitions@), partition as int)
                &&& r is Ok <==> forall|q: int|
                    0 <= q < partitions@.len() ==> parse_blocks(#[trigger] partitions@[q]@) is Some
                &&& r matches Ok(o) ==> match o {
                    Some(k) => reduce_result(parts_view(partitions@)) == Some(k@),
                    None => reduce_result(parts_view(partitions@)) is None,
                }
            },
    {
        let reducer = Reducer { group };
        reducer.reduce_global_unique(partitions)
    }

    fn reduce_global_unique(&self, partitions: &Vec<Vec<u8>>) -> (r: Result<
        Option<String>,
        ReduceError,
    >)
        ensures
            partitions@.len() != self.group.size ==> r == Err::<Option<String>, ReduceError>(
                ReduceError::PartitionCount { expected: self.group.size, found: partitions@.len() as usize },
            ),
            partitions@.len() == self.group.size ==> {
                &&& r matches Err(e) ==> e matches ReduceError::Malformed { partition }
                    && first_malformed(parts_view(partitions@), partition as int)
                &&& r is Ok <==> forall|q: int|
                    0 <= q < partitions@.len() ==> parse_blocks(#[trigger] partitions@[q]@) is Some
                &&& r matches Ok(o) ==> match o {
                    Some(k) => reduce_result(parts_view(partitions@)) == Some(k@),
                    None => reduce_result(parts_view(partitions@)) is None,
                }
            },
    {
        let ghost parts = parts_view(partitions@);
        if partitions.len() != self.group.size as usize {
            return Err(ReduceError::PartitionCount { expected: self.group.size, found: partitions.len() });
        }
        let mut entries: Vec<Entry> = Vec::new();
        let mut q: usize = 0;
        while q < partitions.len()
            invariant
                parts == parts_view(partitions@),
                partitions@.len() == self.group.size,
                q <= partitions@.len(),
                entries_view(entries@) == candidates(parts.subrange(0, q as int)),
                forall|j: int| 0 <= j < q ==> parse_blocks(#[trigger] parts[j]) is Some,
            decreases partitions@.len() - q,
        {
            proof {
                assert(parts.subrange(0, q + 1).drop_last() =~= parts.subrange(0, q as int));
                assert(parts[q as int] == partitions@[q as int]@);
            }
            match reduce_local_unique(partitions[q].as_slice()) {
                Some(Some(entry)) => {
                    let ghost before = entries_view(entries@);
                    entries.push(entry);
                    assert(entries_view(entries@) =~= before.push(entry@));
                },
                Some(None) => {},
                None => {
                    assert(first_malformed(parts, q as int));
                    return Err(ReduceError::Malformed { partition: q as u32 });
                },
            }
            q = q + 1;
        }
        assert(parts.subrange(0, q as int) =~= parts);
        assert forall|j: int| 0 <= j < partitions@.len() implies parse_blocks(
            #[trigger] partitions@[j]@,
        ) is Some by {
            assert(parts[j] == partitions@[j]@);
        }
        Ok(self.find_first_word_from_reduced_entries(entries))
    }

    /// The key of the entry with the smallest index, the first of them on a
    /// tie.
    pub fn find_first_word_from_reduced_entries(&self, entries: Vec<Entry>) -> (r: Option<String>)
        ensures
            r is Some <==> earliest(entries_view(entries@)) is Some,
            r matches Some(k) ==> key_of(earliest(entries_view(entries@))) == Some(k@),
    {
        let ghost a = entries_view(entries@);
        let mut best: Option<usize> = None;
        let mut i: usize = 0;
        while i < entries.len()
            invariant
                a == entries_view(entries@),
                i <= entries@.len(),
                earliest(a.subrange(0, i as int)) == match best {
                    Some(j) => Some(a[j as int]),
                    None => None,
                },
                best matches Some(j) ==> j < i,
            decreases entries@.len() - i,
        {
            proof {
                assert(a.subrange(0, i + 1).drop_last() =~= a.subrange(0, i as int));
            }
            let better = match best {
                Some(j) => entries[i].record.index < entries[j].record.index,
                None => true,
            };
            if better {
                best = Some(i);
            }
            i = i + 1;
        }
        assert(a.subrange(0, i as int) =~= a);
        match best {
            Some(j) => Some(entries[j].key.clone()),
            None => None,
        }
    }
}

} // verus!

//! Assignment of input lines to partitions, and the partition contents that
//! a shuffle produces.

use bytes::BytesMut;
use vstd::prelude::*;
use vstd::utf8::*;

use crate::buffer::buffer_bytes;
use crate::entry::{blocks_bytes, Record};

pub mod shuffler;

use shuffler::Shuffler;

verus! {

/// Partitions of a shuffle when none are asked for.
pub const DEFAULT_GROUP_SIZE: u32 = 32;

/// Writer threads of a shuffle when none are asked for.
pub const DEFAULT_THREADS: u32 = 8;

/// Start value of the 64-bit FNV-1a hash.
pub const FNV_OFFSET_BASIS: u64 = 0xcbf2_9ce4_8422_2325;

/// Multiplier of the 64-bit FNV-1a hash.
pub const FNV_PRIME: u64 = 0x100_0000_01b3;

/// The 64-bit FNV-1a hash of `bytes`.
pub open spec fn key_hash(bytes: Seq<u8>) -> u64
    decreases bytes.len(),
{
    if bytes.len() == 0 {
        FNV_OFFSET_BASIS
    } else {
        vstd::wrapping::u64_specs::wrapping_mul(
            key_hash(bytes.drop_last()) ^ (bytes.last() as u64),
            FNV_PRIME,
        )
    }
}

/// The partition, among `size`, of `key`: its hash modulo `size`.
#[verifier::opaque]
pub open spec fn partition_of(key: Seq<char>, size: u32) -> u32 {
    (key_hash(encode_utf8(key)) % (size as u64)) as u32
}

/// A key falls in one of the partitions.
pub proof fn lemma_partition_in_range(key: Seq<char>, size: u32)
    requires
        size >= 1,
    ensures
        partition_of(key, size) < size,
{
    reveal(partition_of);
}

/// The token of a line: the line without one trailing comma, if it has one.
pub open spec fn token_of(line: Seq<char>) -> Seq<char> {
    if line.len() > 0 && line.last() == ',' {
        line.drop_last()
    } else {
        line
    }
}

/// The characters of each line.
pub open spec fn lines_view(lines: Seq<String>) -> Seq<Seq<char>> {
    lines.map_values(|l: String| l@)
}

/// The token of each line.
pub open spec fn tokens_of(lines: Seq<Seq<char>>) -> Seq<Seq<char>> {
    lines.map_values(|l: Seq<char>| token_of(l))
}

/// The entries that partition `q` receives from `keys`, where `keys[i]` was
/// read on line `first + i`: one entry per line whose key falls in `q`, in
/// the order of the lines.
pub open spec fn partition_entries(keys: Seq<Seq<char>>, size: u32, q: int, first: int) -> Seq<
    (Seq<char>, Record),
>
    decreases keys.len(),
{
    if keys.len() == 0 {
        Seq::empty()
    } else {
        let i = keys.len() - 1;
        let prev = partition_entries(keys.drop_last(), size, q, first);
        if partition_of(keys[i], size) == q {
            prev.push((keys[i], Record { count: 1, index: (first + i) as u64 }))
        } else {
            prev
        }
    }
}

/// The bytes that partition `q` receives from `keys`.
pub open spec fn partition_bytes(keys: Seq<Seq<char>>, size: u32, q: int, first: int) -> Seq<u8> {
    blocks_bytes(partition_entries(keys, size, q, first))
}

/// Each of `size` partitions would hold the blocks that `keys` send it.
pub open spec fn partitions_fit(keys: Seq<Seq<char>>, size: u32, first: int) -> bool {
    forall|q: int| 0 <= q < size ==> (#[trigger] partition_bytes(keys, size, q, first)).len() <= isize::MAX
}

/// Buffer `q` of `out` holds what partition `q` receives from `keys`.
pub open spec fn holds_partitions(out: Seq<BytesMut>, keys: Seq<Seq<char>>, size: u32, first: int) -> bool {
    &&& out.len() == size
    &&& forall|q: int| 0 <= q < size ==> buffer_bytes(#[trigger] out[q]) == partition_bytes(keys, size, q, first)
}

/// Walks `bytes` through the hash, one byte at a time.
pub(crate) fn hash_bytes(bytes: &[u8]) -> (r: u64)
    ensures
        r == key_hash(bytes@),
{
    let mut h: u64 = FNV_OFFSET_BASIS;
    let mut i: usize = 0;
    while i < bytes.len()
        invariant
            i <= bytes@.len(),
            h == key_hash(bytes@.subrange(0, i as int)),
        decreases bytes@.len() - i,
    {
        assert(bytes@.subrange(0, i + 1).drop_last() =~= bytes@.subrange(0, i as int));
        h = (h ^ (bytes[i] as u64)).wrapping_mul(FNV_PRIME);
        i = i + 1;
    }
    assert(bytes@.subrange(0, i as int) =~= bytes@);
    h
}

/// Relies on `str::strip_suffix` with a `char` pattern: what precedes `c`
/// when `s` ends with it.
#[verifier::external_body]
fn strip_suffix_char<'a>(s: &'a str, c: char) -> (stripped: Option<&'a str>)
    ensures
        stripped matches Some(rest) ==> s@.len() > 0 && s@.last() == c && rest@ == s@.drop_last(),
        stripped is None ==> !(s@.len() > 0 && s@.last() == c),
{
    s.strip_suffix(c)
}

/// The token of `line`: `line` without one trailing comma, if it has one.
pub fn token(line: &str) -> (r: String)
    ensures
        r@ == token_of(line@),
{
    match strip_suffix_char(line, ',') {
        Some(rest) => rest.to_owned(),
        None => line.to_owned(),
    }
}

/// Why a shuffle could not be set up.
#[derive(Clone, Copy, Debug, PartialEq, Eq, Structural)]
pub enum ShuffleError {
    /// No partition, no writer, or writers that cannot share the partitions
    /// evenly.
    InvalidGroup { size: u32, threads: u32 },
}

/// The partition of `val` among `nr_groups`: the hash of its UTF-8 bytes
/// modulo `nr_groups`.
pub fn make_index(val: &str, nr_groups: u32) -> (r: u32)
    requires
        nr_groups >= 1,
    ensures
        r == partition_of(val@, nr_groups),
        r < nr_groups,
        r as int == key_hash(encode_utf8(val@)) as int % nr_groups as int,
{
    let h = hash_bytes(val.as_bytes());
    proof {
        reveal(partition_of);
    }
    (h % (nr_groups as u64)) as u32
}

/// A shuffle's shape: how many partitions, and how many writers share them.
#[derive(Clone, Copy, Debug)]
pub struct Group {
    pub size: u32,
    pub threads: u32,
}

impl Group {
    /// At least one partition and one writer, and every writer owns as many
    /// partitions as the others.
    pub open spec fn wf(self) -> bool {
        &&& self.size >= 1
        &&& self.threads >= 1
        &&& self.size % self.threads == 0
    }

    /// Shuffles `lines`, numbered from zero, into the default number of
    /// partitions.
    pub fn run(lines: &Vec<String>) -> (r: (Group, Vec<BytesMut>))
        requires
            partitions_fit(tokens_of(lines_view(lines@)), DEFAULT_GROUP_SIZE, 0),
        ensures
            r.0 == (Group { size: DEFAULT_GROUP_SIZE, threads: DEFAULT_THREADS }),
            holds_partitions(r.1@, tokens_of(lines_view(lines@)), DEFAULT_GROUP_SIZE, 0),
    {
        let group = Group { size: DEFAULT_GROUP_SIZE, threads: DEFAULT_THREADS };
        assert(lines@.len() == lines.len());
        let out = Shuffler::new(group).run_partition(lines, 0);
        (group, out)
    }

    /// Shuffles `lines`, numbered from zero, into `group_size` partitions
    /// shared by `threads` writers; refuses a shape that is not well formed.
    pub fn run_with_group_size(lines: &Vec<String>, group_size: u32, threads: u32) -> (r: Result<
        (Group, Vec<BytesMut>),
        ShuffleError,
    >)
        requires
            partitions_fit(tokens_of(lines_view(lines@)), group_size, 0),
        ensures
            r is Ok <==> (Group { size: group_size, threads }).wf(),
            r matches Ok((g, out)) ==> g == (Group { size: group_size, threads })
                && holds_partitions(out@, tokens_of(lines_view(lines@)), group_size, 0),
            r matches Err(e) ==> e == (ShuffleError::InvalidGroup { size: group_size, threads }),
    {
        if group_size == 0 || threads == 0 || group_size % threads != 0 {
            return Err(ShuffleError::InvalidGroup { size: group_size, threads });
        }
        let group = Group { size: group_size, threads };
        assert(lines@.len() == lines.len());
        let out = Shuffler::new(group).run_partition(lines, 0);
        Ok((group, out))
    }

    pub fn size(&self) -> (r: u32)
        ensures
            r == self.size,
    {
        self.size
    }

    pub fn threads(&self) -> (r: u32)
        ensures
            r == self.threads,
    {
        self.threads
    }

    /// The partition of `val`.
    pub fn make_index(&self, val: &str) -> (r: u32)
        requires
            self.size >= 1,
        ensures
            r == partition_of(val@, self.size),
            r < self.size,
    {
        make_index(val, self.size)
    }

    /// The writer that owns partition `partition`.
    pub fn owner(&self, partition: u32) -> (r: u32)
        requires
            self.wf(),
            partition < self.size,
        ensures
            r == partition % self.threads,
            r < self.threads,
    {
        partition % self.threads
    }

    /// The place of partition `partition` among those of its writer.
    pub fn slot(&self, partition: u32) -> (r: u32)
        requires
            self.wf(),
            partition < self.size,
        ensures
            r == partition / self.threads,
            r < self.size / self.threads,
            partition == partition % self.threads + r * self.threads,
    {
        proof {
            lemma_slot_bound(partition as int, self.size as int, self.threads as int);
        }
        partition / self.threads
    }
}

proof fn lemma_slot_bound(p: int, size: int, threads: int)
    requires
        0 <= p < size,
        threads >= 1,
        size % threads == 0,
    ensures
        p / threads < size / threads,
        p == p % threads + (p / threads) * threads,
{
    vstd::arithmetic::div_mod::lemma_fundamental_div_mod(p, threads);
    vstd::arithmetic::div_mod::lemma_fundamental_div_mod(size, threads);
    assert(p / threads < size / threads) by (nonlinear_arith)
        requires
            p == threads * (p / threads) + p % threads,
            size == threads * (size / threads),
            0 <= p % threads < threads,
            p < size,
            threads >= 1,
    ;
}

} // verus!

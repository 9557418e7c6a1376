//! Records, entries and the length-prefixed block format that carries them
//! between the shuffle and the reduce.

use bytes::BytesMut;
use vstd::prelude::*;
use vstd::slice::slice_to_vec;
use vstd::utf8::*;

use crate::buffer::{buffer_bytes, put_slice, put_u64, with_capacity};

verus! {

/// The eight bytes of `n`, most significant first.
pub open spec fn be64(n: u64) -> Seq<u8> {
    seq![
        (n >> 56) as u8,
        (n >> 48) as u8,
        (n >> 40) as u8,
        (n >> 32) as u8,
        (n >> 24) as u8,
        (n >> 16) as u8,
        (n >> 8) as u8,
        n as u8,
    ]
}

/// The number whose big-endian bytes are `b0` to `b7`.
pub open spec fn u64_of_bytes(b0: u8, b1: u8, b2: u8, b3: u8, b4: u8, b5: u8, b6: u8, b7: u8) -> u64 {
    (b0 as u64) << 56 | (b1 as u64) << 48 | (b2 as u64) << 40 | (b3 as u64) << 32 | (b4 as u64)
        << 24 | (b5 as u64) << 16 | (b6 as u64) << 8 | (b7 as u64)
}

/// The number that the first eight bytes of `b` spell in big-endian order.
pub open spec fn be64_value(b: Seq<u8>) -> u64 {
    u64_of_bytes(b[0], b[1], b[2], b[3], b[4], b[5], b[6], b[7])
}

pub proof fn lemma_be64_value(n: u64)
    ensures
        be64_value(be64(n)) == n,
{
    assert(u64_of_bytes(
        (n >> 56) as u8,
        (n >> 48) as u8,
        (n >> 40) as u8,
        (n >> 32) as u8,
        (n >> 24) as u8,
        (n >> 16) as u8,
        (n >> 8) as u8,
        n as u8,
    ) == n) by (bit_vector);
}

/// How often a key was seen, and the earliest line it was seen on.
#[derive(Debug, Clone, Copy, PartialEq, Eq, Structural)]
pub struct Record {
    pub count: u64,
    pub index: u64,
}

impl Record {
    /// A record is well formed when it counts at least one occurrence.
    pub open spec fn wf(self) -> bool {
        self.count >= 1
    }

    /// The record of both `self`'s and `other`'s occurrences.
    pub open spec fn spec_merge(self, other: Record) -> Record {
        Record {
            count: (self.count + other.count) as u64,
            index: if self.index < other.index {
                self.index
            } else {
                other.index
            },
        }
    }

    /// The record of a single occurrence on line `index`.
    pub fn new(index: u64) -> (r: Record)
        ensures
            r == (Record { count: 1, index }),
            r.wf(),
    {
        Record { count: 1, index }
    }

    /// Adds the counts and keeps the earlier line.
    pub fn merge(&self, other: &Record) -> (r: Record)
        requires
            self.count + other.count <= u64::MAX,
        ensures
            r == self.spec_merge(*other),
            r.count == self.count + other.count,
            r.index == self.index || r.index == other.index,
            r.index <= self.index && r.index <= other.index,
    {
        let index = if self.index < other.index {
            self.index
        } else {
            other.index
        };
        Record { count: self.count + other.count, index }
    }
}

/// Merging is commutative.
pub proof fn lemma_merge_commutative(a: Record, b: Record)
    ensures
        a.spec_merge(b) == b.spec_merge(a),
{
}

/// Merging is associative, where the counts add up without overflow.
pub proof fn lemma_merge_associative(a: Record, b: Record, c: Record)
    requires
        a.count + b.count + c.count <= u64::MAX,
    ensures
        a.spec_merge(b).spec_merge(c) == a.spec_merge(b.spec_merge(c)),
{
}

/// Merging a record with itself keeps its index.
pub proof fn lemma_merge_index_idempotent(a: Record)
    ensures
        a.spec_merge(a).index == a.index,
{
}

/// Merging one more occurrence on line `i` into a well-formed record keeps
/// it well formed and keeps the earlier of the two lines.
pub proof fn lemma_merge_new_occurrence(r: Record, i: u64)
    requires
        r.wf(),
        r.count + 1 <= u64::MAX,
    ensures
        r.spec_merge(Record { count: 1, index: i }).wf(),
        r.spec_merge(Record { count: 1, index: i }).count == r.count + 1,
        r.spec_merge(Record { count: 1, index: i }).index == if r.index < i {
            r.index
        } else {
            i
        },
{
}

/// A key with its record.
#[derive(Debug, Clone, PartialEq, Eq)]
pub struct Entry {
    pub key: String,
    pub record: Record,
}

impl View for Entry {
    type V = (Seq<char>, Record);

    open spec fn view(&self) -> (Seq<char>, Record) {
        (self.key@, self.record)
    }
}

impl Entry {
    /// The entry of `key` seen once, on line `index`.
    pub fn new(key: String, index: usize) -> (r: Entry)
        ensures
            r@ == (key@, Record { count: 1, index: index as u64 }),
    {
        let record = Record::new(index as u64);
        Entry { key, record }
    }

    pub fn from_record(key: String, record: Record) -> (r: Entry)
        ensures
            r@ == (key@, record),
    {
        Entry { key, record }
    }
}

/// The block of one entry: the key's length in bytes, the key's UTF-8
/// bytes, the count and the index, each number in eight big-endian bytes.
pub open spec fn block_bytes(e: (Seq<char>, Record)) -> Seq<u8> {
    be64(encode_utf8(e.0).len() as u64) + encode_utf8(e.0) + be64(e.1.count) + be64(e.1.index)
}

/// The blocks of `es`, one after the other.
pub open spec fn blocks_bytes(es: Seq<(Seq<char>, Record)>) -> Seq<u8>
    decreases es.len(),
{
    if es.len() == 0 {
        Seq::empty()
    } else {
        block_bytes(es[0]) + blocks_bytes(es.drop_first())
    }
}

/// An entry can be written as a block: its record counts at least once and
/// its key's length fits the length field.
pub open spec fn encodable(e: (Seq<char>, Record)) -> bool {
    e.1.wf() && encode_utf8(e.0).len() <= u64::MAX
}

/// The entries that `b` holds as a sequence of whole blocks, or `None` where
/// it is not one: a block is cut short, its key is not UTF-8, or its count
/// is zero.
pub open spec fn parse_blocks(b: Seq<u8>) -> Option<Seq<(Seq<char>, Record)>>
    decreases b.len(),
{
    if b.len() == 0 {
        Some(Seq::empty())
    } else if b.len() < 24 {
        None
    } else {
        let n = be64_value(b.subrange(0, 8)) as int;
        if b.len() < 24 + n {
            None
        } else {
            let key = b.subrange(8, 8 + n);
            let count = be64_value(b.subrange(8 + n, 16 + n));
            let index = be64_value(b.subrange(16 + n, 24 + n));
            if !valid_utf8(key) || count == 0 {
                None
            } else {
                match parse_blocks(b.subrange(24 + n, b.len() as int)) {
                    Some(rest) => Some(
                        seq![(decode_utf8(key), Record { count, index })] + rest,
                    ),
                    None => None,
                }
            }
        }
    }
}

/// The views of a sequence of entries.
pub open spec fn entries_view(v: Seq<Entry>) -> Seq<(Seq<char>, Record)> {
    v.map_values(|e: Entry| e@)
}

/// Parsing a block followed by more bytes gives its entry, then what the
/// rest gives.
proof fn lemma_parse_block(e: (Seq<char>, Record), rest: Seq<u8>)
    requires
        encodable(e),
    ensures
        parse_blocks(block_bytes(e) + rest) == match parse_blocks(rest) {
            Some(tail) => Some(seq![e] + tail),
            None => None,
        },
{
    let kb = encode_utf8(e.0);
    let n = kb.len() as int;
    let b = block_bytes(e) + rest;
    assert(b.subrange(0, 8) =~= be64(n as u64));
    assert(b.subrange(8, 8 + n) =~= kb);
    assert(b.subrange(8 + n, 16 + n) =~= be64(e.1.count));
    assert(b.subrange(16 + n, 24 + n) =~= be64(e.1.index));
    assert(b.subrange(24 + n, b.len() as int) =~= rest);
    lemma_be64_value(n as u64);
    lemma_be64_value(e.1.count);
    lemma_be64_value(e.1.index);
    encode_utf8_valid_utf8(e.0);
    encode_utf8_decode_utf8(e.0);
}

/// Parsing the blocks of well-formed entries gives the entries back.
pub proof fn lemma_blocks_round_trip(es: Seq<(Seq<char>, Record)>)
    requires
        forall|i: int| 0 <= i < es.len() ==> encodable(#[trigger] es[i]),
    ensures
        parse_blocks(blocks_bytes(es)) == Some(es),
    decreases es.len(),
{
    if es.len() > 0 {
        let tail = es.drop_first();
        assert(encodable(es[0]));
        assert forall|i: int| 0 <= i < tail.len() implies encodable(#[trigger] tail[i]) by {
            assert(encodable(es[i + 1]));
        }
        lemma_blocks_round_trip(tail);
        lemma_parse_block(es[0], blocks_bytes(tail));
        assert(seq![es[0]] + tail =~= es);
    }
}

/// Appending an entry appends its block.
pub proof fn lemma_blocks_bytes_push(es: Seq<(Seq<char>, Record)>, e: (Seq<char>, Record))
    ensures
        blocks_bytes(es.push(e)) == blocks_bytes(es) + block_bytes(e),
    decreases es.len(),
{
    let s = es.push(e);
    if es.len() == 0 {
        assert(s.drop_first() =~= es);
        assert(blocks_bytes(es) == Seq::<u8>::empty());
        assert(block_bytes(e) + Seq::<u8>::empty() =~= block_bytes(e));
    } else {
        assert(s.drop_first() =~= es.drop_first().push(e));
        lemma_blocks_bytes_push(es.drop_first(), e);
        assert(block_bytes(es[0]) + (blocks_bytes(es.drop_first()) + block_bytes(e))
            =~= blocks_bytes(es) + block_bytes(e));
    }
}

/// Relies on `String::from_utf8`: it succeeds exactly on valid UTF-8, and the
/// string then holds the characters that the bytes encode.
#[verifier::external_body]
fn string_from_utf8(v: Vec<u8>) -> (r: Option<String>)
    ensures
        r is Some <==> valid_utf8(v@),
        r matches Some(s) ==> s@ == decode_utf8(v@),
{
    String::from_utf8(v).ok()
}

/// The number in the eight bytes of `b` from `pos` on, most significant first.
fn read_be64(b: &[u8], pos: usize) -> (r: u64)
    requires
        pos + 8 <= b@.len(),
    ensures
        r == be64_value(b@.subrange(pos as int, pos + 8)),
{
    u64_of_bytes_exec(
        b[pos],
        b[pos + 1],
        b[pos + 2],
        b[pos + 3],
        b[pos + 4],
        b[pos + 5],
        b[pos + 6],
        b[pos + 7],
    )
}

fn u64_of_bytes_exec(b0: u8, b1: u8, b2: u8, b3: u8, b4: u8, b5: u8, b6: u8, b7: u8) -> (r: u64)
    ensures
        r == u64_of_bytes(b0, b1, b2, b3, b4, b5, b6, b7),
{
    (b0 as u64) << 56 | (b1 as u64) << 48 | (b2 as u64) << 40 | (b3 as u64) << 32 | (b4 as u64)
        << 24 | (b5 as u64) << 16 | (b6 as u64) << 8 | (b7 as u64)
}

/// One entry in its length-prefixed binary form.
pub struct Block {
    offset: u64,
    entry: Entry,
}

impl View for Block {
    type V = (Seq<char>, Record);

    closed spec fn view(&self) -> (Seq<char>, Record) {
        self.entry@
    }
}

impl Block {
    /// The length field agrees with the key.
    pub closed spec fn wf(&self) -> bool {
        self.offset == encode_utf8(self.entry.key@).len()
    }

    /// The block of `key` seen once, on line `index`.
    pub fn create(key: String, index: usize) -> (r: Block)
        ensures
            r@ == (key@, Record { count: 1, index: index as u64 }),
            r.wf(),
    {
        let entry = Entry::new(key, index);
        let offset = entry.key.as_str().as_bytes().len() as u64;
        Block { offset, entry }
    }

    /// The bytes of the block.
    pub fn as_bytes(&self) -> (r: BytesMut)
        requires
            self.wf(),
            encode_utf8(self@.0).len() + 24 <= isize::MAX,
        ensures
            buffer_bytes(r) == block_bytes(self@),
    {
        let buf_size = self.offset + 24;
        let mut buf = with_capacity(buf_size as usize);
        put_u64(&mut buf, self.offset);
        put_slice(&mut buf, self.entry.key.as_str().as_bytes());
        put_u64(&mut buf, self.entry.record.count);
        put_u64(&mut buf, self.entry.record.index);
        assert(buffer_bytes(buf) =~= block_bytes(self@));
        buf
    }

    /// The entries of a buffer of whole blocks, in order; `None` where the
    /// buffer is not such a sequence.
    pub fn parse_entries(bytes: &[u8]) -> (r: Option<Vec<Entry>>)
        ensures
            r is Some <==> parse_blocks(bytes@) is Some,
            r matches Some(v) ==> parse_blocks(bytes@) == Some(entries_view(v@)),
    {
        let len = bytes.len();
        let mut entries: Vec<Entry> = Vec::new();
        let mut pos: usize = 0;
        proof {
            assert(bytes@.subrange(0, len as int) =~= bytes@);
            if let Some(rest) = parse_blocks(bytes@) {
                assert(entries_view(entries@) + rest =~= rest);
            }
        }
        while pos < len
            invariant
                len == bytes@.len(),
                pos <= len,
                parse_blocks(bytes@) == match parse_blocks(bytes@.subrange(pos as int, len as int)) {
                    Some(rest) => Some(entries_view(entries@) + rest),
                    None => None,
                },
            decreases len - pos,
        {
            let ghost rest = bytes@.subrange(pos as int, len as int);
            if len - pos < 24 {
                return None;
            }
            let offset = read_be64(bytes, pos);
            assert(rest.subrange(0, 8) =~= bytes@.subrange(pos as int, pos + 8));
            if offset > (len - pos - 24) as u64 {
                return None;
            }
            let n = offset as usize;
            let key_start = pos + 8;
            let key_end = key_start + n;
            let count = read_be64(bytes, key_end);
            let index = read_be64(bytes, key_end + 8);
            let key_bytes = slice_to_vec(&bytes[key_start..key_end]);
            assert(rest.subrange(8, 8 + n) =~= key_bytes@);
            assert(rest.subrange(8 + n, 16 + n) =~= bytes@.subrange(key_end as int, key_end + 8));
            assert(rest.subrange(16 + n, 24 + n) =~= bytes@.subrange(
                key_end + 8,
                key_end + 16,
            ));
            assert(rest.subrange(24 + n, rest.len() as int) =~= bytes@.subrange(
                key_end + 16,
                len as int,
            ));
            let key = match string_from_utf8(key_bytes) {
                Some(key) => key,
                None => {
                    return None;
                },
            };
            if count == 0 {
                return None;
            }
            let entry = Entry::from_record(key, Record { count, index });
            let ghost before = entries_view(entries@);
            entries.push(entry);
            assert(entries_view(entries@) =~= before.push(entry@));
            pos = key_end + 16;
            proof {
                if let Some(tail) = parse_blocks(bytes@.subrange(pos as int, len as int)) {
                    assert(before + (seq![entry@] + tail) =~= entries_view(entries@) + tail);
                }
            }
        }
        assert(bytes@.subrange(pos as int, len as int) =~= Seq::<u8>::empty());
        assert(entries_view(entries@) + Seq::<(Seq<char>, Record)>::empty() =~= entries_view(
            entries@,
        ));
        Some(entries)
    }
}

} // verus!

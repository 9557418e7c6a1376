//! The shuffle of a batch of lines into partition buffers.

use bytes::BytesMut;
use vstd::prelude::*;

use crate::buffer::{buffer_bytes, unsplit, with_capacity};
use crate::entry::{lemma_blocks_bytes_push, Block, Record};
use crate::shuffle::{
    holds_partitions, lines_view, partition_bytes, partition_entries, partition_of,
    partitions_fit, token, tokens_of, Group,
};

verus! {

/// Sends each line of a batch to the buffer of its partition.
pub struct Shuffler {
    group: Group,
}

impl View for Shuffler {
    type V = Group;

    closed spec fn view(&self) -> Group {
        self.group
    }
}

impl Shuffler {
    /// A shuffler for `group`.
    pub fn new(group: Group) -> (r: Shuffler)
        ensures
            r@ == group,
    {
        Shuffler { group }
    }

    /// The blocks of `lines`, read from line `first` on, sorted into one
    /// buffer per partition, each in the order of the lines.
    pub fn run_partition(&self, lines: &Vec<String>, first: usize) -> (r: Vec<BytesMut>)
        requires
            self@.wf(),
            first + lines@.len() <= usize::MAX,
            partitions_fit(tokens_of(lines_view(lines@)), self@.size, first as int),
        ensures
            holds_partitions(r@, tokens_of(lines_view(lines@)), self@.size, first as int),
    {
        let ghost keys = tokens_of(lines_view(lines@));
        let size = self.group.size();
        let mut out: Vec<BytesMut> = Vec::new();
        let mut q: u32 = 0;
        while q < size
            invariant
                q <= size,
                out@.len() == q,
                forall|j: int| 0 <= j < q ==> buffer_bytes(#[trigger] out@[j]) == Seq::<u8>::empty(),
            decreases size - q,
        {
            out.push(with_capacity(0));
            q = q + 1;
        }
        let mut i: usize = 0;
        while i < lines.len()
            invariant
                self@.wf(),
                size == self@.size,
                keys == tokens_of(lines_view(lines@)),
                first + lines@.len() <= usize::MAX,
                partitions_fit(keys, size, first as int),
                i <= lines@.len(),
                holds_partitions(out@, keys.subrange(0, i as int), size, first as int),
            decreases lines@.len() - i,
        {
            let ghost before = keys.subrange(0, i as int);
            let ghost after = keys.subrange(0, i + 1);
            let key = token(lines[i].as_str());
            let p = self.group.make_index(key.as_str());
            let ghost e = (key@, Record { count: 1, index: (first + i) as u64 });
            proof {
                assert(after.drop_last() =~= before);
                assert(after.last() == key@);
                lemma_blocks_bytes_push(partition_entries(before, size, p as int, first as int), e);
                lemma_partition_bytes_prefix(keys, size, p as int, first as int, i + 1);
                assert(partition_bytes(keys, size, p as int, first as int).len() <= isize::MAX);
            }
            let block = Block::create(key, first + i);
            let bytes = block.as_bytes();
            unsplit(&mut out[p as usize], bytes);
            proof {
                assert forall|j: int| 0 <= j < size implies buffer_bytes(#[trigger] out@[j])
                    == partition_bytes(after, size, j, first as int) by {
                    if j != p {
                        assert(partition_entries(after, size, j, first as int) == partition_entries(
                            before,
                            size,
                            j,
                            first as int,
                        ));
                    }
                }
            }
            i = i + 1;
        }
        assert(keys.subrange(0, i as int) =~= keys);
        out
    }
}

/// What partition `q` receives from the first `i` keys never holds more
/// than it receives from all of them.
proof fn lemma_partition_bytes_prefix(keys: Seq<Seq<char>>, size: u32, q: int, first: int, i: int)
    requires
        0 <= i <= keys.len(),
    ensures
        partition_bytes(keys.subrange(0, i), size, q, first).len() <= partition_bytes(
            keys,
            size,
            q,
            first,
        ).len(),
    decreases keys.len(),
{
    if i == keys.len() {
        assert(keys.subrange(0, i) =~= keys);
    } else {
        let shorter = keys.drop_last();
        assert(shorter.subrange(0, i) =~= keys.subrange(0, i));
        lemma_partition_bytes_prefix(shorter, size, q, first, i);
        let n = keys.len() - 1;
        if partition_of(keys[n], size) == q {
            lemma_blocks_bytes_push(
                partition_entries(shorter, size, q, first),
                (keys[n], Record { count: 1, index: (first + n) as u64 }),
            );
        }
    }
}

} // verus!

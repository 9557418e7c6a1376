//! Finds the first token of a line-oriented input that occurs exactly once,
//! through a partitioned shuffle to a binary block format and a two-phase
//! reduce.

pub mod buffer;
pub mod correctness;
pub mod entry;
pub mod reduce;
pub mod shuffle;

use bytes::BytesMut;
use vstd::prelude::*;

use crate::buffer::{buffer_bytes, into_vec};
use crate::correctness::{
    first_unique, lemma_keys_fit, lemma_reduce_finds_first_unique, lemma_shuffle_parses,
};
use crate::entry::parse_blocks;
use crate::reduce::{parts_view, Reducer};
use crate::shuffle::{
    lines_view, partition_bytes, partitions_fit, tokens_of, Group, DEFAULT_GROUP_SIZE,
};

verus! {

/// The token of the first of `lines` whose token occurs on no other line,
/// found through a shuffle into the default partitions and their reduce.
pub fn find_first_unique(lines: &Vec<String>) -> (r: Option<String>)
    requires
        partitions_fit(tokens_of(lines_view(lines@)), DEFAULT_GROUP_SIZE, 0),
    ensures
        match r {
            Some(k) => first_unique(tokens_of(lines_view(lines@))) == Some(k@),
            None => first_unique(tokens_of(lines_view(lines@))) is None,
        },
{
    let ghost keys = tokens_of(lines_view(lines@));
    assert(lines@.len() == lines.len());
    let (group, mut buffers) = Group::run(lines);
    let ghost shuffled = buffers@;
    let mut partitions: Vec<Vec<u8>> = Vec::new();
    while buffers.len() > 0
        invariant
            partitions@.len() + buffers@.len() == shuffled.len(),
            forall|q: int| 0 <= q < partitions@.len() ==> (#[trigger] partitions@[q])@ == buffer_bytes(shuffled[q]),
            forall|j: int| 0 <= j < buffers@.len() ==> #[trigger] buffers@[j] == shuffled[partitions@.len() + j],
        decreases buffers@.len(),
    {
        let b: BytesMut = buffers.remove(0);
        partitions.push(into_vec(b));
    }
    let ghost size = DEFAULT_GROUP_SIZE;
    proof {
        lemma_keys_fit(keys, size);
        lemma_reduce_finds_first_unique(keys, size);
        assert(parts_view(partitions@) =~= Seq::new(size as nat, |q: int| partition_bytes(keys, size, q, 0)));
        assert forall|q: int| 0 <= q < partitions@.len() implies parse_blocks(#[trigger] partitions@[q]@) is Some by {
            lemma_shuffle_parses(keys, size, q);
        }
    }
    match Reducer::for_first_unique(group, &partitions) {
        Ok(found) => found,
        Err(_) => None,
    }
}

} // verus!

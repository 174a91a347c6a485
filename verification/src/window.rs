//! The windower and the fingerprint index.
//!
//! The windower slides a fixed-size window over a byte buffer at every
//! single-byte offset and fingerprints each window. The index maps a
//! fingerprint to the last window descriptor that carries it: on a
//! fingerprint collision the most recently inserted descriptor wins, which
//! the lookup realizes by scanning the descriptors from the back.

use vstd::prelude::*;
use crate::DeltaError;
use crate::digest::{digest_of, sha256, bytes_eq};

verus! {

/// One window of bytes taken from a source buffer: its length, its offset
/// within the buffer, and the fingerprint of its content.
#[derive(Debug, Clone)]
pub struct Chunk {
    pub size: usize,
    pub position: usize,
    pub hash: Vec<u8>,
}

/// The ordered window descriptors of one buffer.
#[derive(Debug)]
pub struct ChunkContainer {
    pub chunks: Vec<Chunk>,
}

/// The fingerprint-to-descriptor lookup table built from a buffer's
/// descriptors; the last descriptor with a given fingerprint wins.
#[derive(Debug)]
pub struct FingerprintIndex {
    pub entries: Vec<Chunk>,
}

/// How many windows of length `size` a buffer of length `len` has: one per
/// start offset, zero when the window does not fit.
pub open spec fn window_count(len: int, size: int) -> int {
    if 1 <= size && size <= len {
        len - size + 1
    } else {
        0
    }
}

/// `c` is the descriptor of the window of `source` that starts at offset `i`.
pub open spec fn chunk_matches(c: Chunk, source: Seq<u8>, size: int, i: int) -> bool {
    &&& c.size == size
    &&& c.position == i
    &&& c.hash@ == digest_of(source.subrange(i, i + size))
}

/// `chunks` are exactly the descriptors of all windows of `source`, in
/// ascending position order.
pub open spec fn chunks_wf(chunks: Seq<Chunk>, source: Seq<u8>, size: int) -> bool {
    &&& chunks.len() == window_count(source.len() as int, size)
    &&& forall|i: int| 0 <= i < chunks.len() ==> chunk_matches(#[trigger] chunks[i], source, size, i)
}

/// The position recorded by the last descriptor in `entries` whose
/// fingerprint is `h`, if any: last-writer-wins resolution.
pub open spec fn last_entry_match(entries: Seq<Chunk>, h: Seq<u8>) -> Option<int>
    decreases entries.len(),
{
    if entries.len() == 0 {
        None
    } else if entries.last().hash@ == h {
        Some(entries.last().position as int)
    } else {
        last_entry_match(entries.drop_last(), h)
    }
}

/// Slides a window of length `size` over `source` at every byte offset and
/// fingerprints each window. A zero window size is rejected; a window larger
/// than the buffer yields no descriptors.
pub fn windows(source: &Vec<u8>, size: usize) -> (r: Result<ChunkContainer, DeltaError>)
    ensures
        match r {
            Ok(c) => size >= 1 && chunks_wf(c.chunks@, source@, size as int),
            Err(e) => size == 0 && e == DeltaError::InvalidWindowSize,
        },
{
    if size == 0 {
        return Err(DeltaError::InvalidWindowSize);
    }
    let mut chunks: Vec<Chunk> = Vec::new();
    if size > source.len() {
        return Ok(ChunkContainer { chunks });
    }
    let mut p: usize = 0;
    while p <= source.len() - size
        invariant
            1 <= size <= source@.len(),
            p <= source@.len() - size + 1,
            chunks@.len() == p,
            forall|i: int| 0 <= i < p ==> chunk_matches(#[trigger] chunks@[i], source@, size as int, i),
        decreases source@.len() - size - p + 1,
    {
        let window = vstd::slice::slice_subrange(source.as_slice(), p, p + size);
        let hash = sha256(window);
        chunks.push(Chunk { size, position: p, hash });
        p += 1;
    }
    Ok(ChunkContainer { chunks })
}

impl ChunkContainer {
    /// Converts the descriptors into the fingerprint lookup table. The
    /// entries keep the descriptors' order, so the lookup's backward scan
    /// gives the most recently inserted descriptor per fingerprint.
    pub fn hash_to_chunk(&self) -> (idx: FingerprintIndex)
        ensures
            idx.entries@.len() == self.chunks@.len(),
            forall|i: int| 0 <= i < self.chunks@.len() ==> {
                &&& (#[trigger] idx.entries@[i]).size == self.chunks@[i].size
                &&& idx.entries@[i].position == self.chunks@[i].position
                &&& idx.entries@[i].hash@ == self.chunks@[i].hash@
            },
    {
        let mut entries: Vec<Chunk> = Vec::new();
        let n = self.chunks.len();
        let mut i: usize = 0;
        while i < n
            invariant
                i <= n,
                n == self.chunks@.len(),
                entries@.len() == i,
                forall|k: int| 0 <= k < i ==> {
                    &&& (#[trigger] entries@[k]).size == self.chunks@[k].size
                    &&& entries@[k].position == self.chunks@[k].position
                    &&& entries@[k].hash@ == self.chunks@[k].hash@
                },
            decreases n - i,
        {
            let c = &self.chunks[i];
            let hash = copy_bytes(&c.hash);
            entries.push(Chunk { size: c.size, position: c.position, hash });
            i += 1;
        }
        FingerprintIndex { entries }
    }
}

impl FingerprintIndex {
    /// Looks a fingerprint up: returns the position recorded by the last
    /// entry carrying it, or `None` when no entry does.
    pub fn lookup(&self, hash: &Vec<u8>) -> (r: Option<usize>)
        ensures
            match r {
                Some(p) => last_entry_match(self.entries@, hash@) == Some(p as int),
                None => last_entry_match(self.entries@, hash@) is None,
            },
    {
        let mut i: usize = self.entries.len();
        assert(self.entries@.subrange(0, i as int) =~= self.entries@);
        while i > 0
            invariant
                i <= self.entries@.len(),
                last_entry_match(self.entries@, hash@)
                    == last_entry_match(self.entries@.subrange(0, i as int), hash@),
            decreases i,
        {
            i -= 1;
            let sub = Ghost(self.entries@.subrange(0, i + 1 as int));
            assert(sub@.last() == self.entries@[i as int]);
            let c = &self.entries[i];
            if bytes_eq(&c.hash, hash) {
                return Some(c.position);
            }
            assert(sub@.drop_last() =~= self.entries@.subrange(0, i as int));
        }
        assert(self.entries@.subrange(0, 0) =~= Seq::<Chunk>::empty());
        None
    }
}

/// Byte-for-byte copy of a byte vector.
fn copy_bytes(src: &Vec<u8>) -> (r: Vec<u8>)
    ensures
        r@ == src@,
{
    let mut r: Vec<u8> = Vec::new();
    let mut i: usize = 0;
    while i < src.len()
        invariant
            i <= src@.len(),
            r@ == src@.subrange(0, i as int),
        decreases src@.len() - i,
    {
        r.push(src[i]);
        assert(r@ =~= src@.subrange(0, i + 1 as int));
        i += 1;
    }
    assert(r@ =~= src@);
    r
}

} // verus!

//! The diff builder and the replayer.
//!
//! `sliding_window_analyze` walks the new buffer's window descriptors in
//! order, consults the old buffer's fingerprint index, and emits COPY and
//! TRANSFER instructions covering the entire new buffer; after a hit or a
//! miss the cursor always advances by a full window, so the scan
//! resynchronizes only at window-size granularity.
//! `sliding_window_restore` replays such an instruction sequence against the
//! old buffer and reconstructs the new one.

use vstd::prelude::*;
use crate::DeltaError;
use crate::digest::digest_of;
use crate::window::{
    window_count, chunk_matches, chunks_wf, last_entry_match, windows, Chunk,
};

verus! {

/// The kind of one delta instruction: reuse bytes from the old buffer, or
/// carry the bytes literally.
#[derive(Debug, Clone, Copy, PartialEq, Eq, Structural)]
pub enum OperationType {
    TRANSFER,
    COPY,
}

/// One step of the delta. For COPY, `start` is the offset into the old
/// buffer to copy from and `payload` is empty; for TRANSFER, `start` is the
/// offset in the new buffer the payload originated from and `payload` holds
/// the literal bytes to emit. `bytes` is the length the instruction
/// contributes to the output.
#[derive(Debug)]
pub struct Operation {
    pub operation_type: OperationType,
    pub start: usize,
    pub bytes: usize,
    pub payload: Vec<u8>,
}

/// The mathematical model of one instruction.
pub ghost struct OpModel {
    pub kind: OperationType,
    pub start: int,
    pub length: int,
    pub payload: Seq<u8>,
}

impl View for Operation {
    type V = OpModel;

    open spec fn view(&self) -> OpModel {
        OpModel {
            kind: self.operation_type,
            start: self.start as int,
            length: self.bytes as int,
            payload: self.payload@,
        }
    }
}

/// The models of a sequence of instructions.
pub open spec fn ops_view(ops: Seq<Operation>) -> Seq<OpModel> {
    ops.map_values(|o: Operation| o@)
}

/// The position of the last window of `old` (among the first `n` windows)
/// whose fingerprint is `h`: the index's last-writer-wins lookup, stated
/// over the buffer itself.
pub open spec fn find_match_upto(old: Seq<u8>, w: int, n: int, h: Seq<u8>) -> Option<int>
    decreases n,
{
    if n <= 0 {
        None
    } else if digest_of(old.subrange(n - 1, n - 1 + w)) == h {
        Some(n - 1)
    } else {
        find_match_upto(old, w, n - 1, h)
    }
}

/// The position of the last window of `old` whose fingerprint is `h`.
pub open spec fn find_match(old: Seq<u8>, w: int, h: Seq<u8>) -> Option<int> {
    find_match_upto(old, w, window_count(old.len() as int, w), h)
}

/// The instruction the diff builder emits for the full window of `new` at
/// `cursor`: COPY from the matched old position on an index hit, TRANSFER
/// of the window's bytes on a miss.
pub open spec fn op_at(old: Seq<u8>, new: Seq<u8>, w: int, cursor: int) -> OpModel {
    let win = new.subrange(cursor, cursor + w);
    match find_match(old, w, digest_of(win)) {
        Some(s) => OpModel {
            kind: OperationType::COPY,
            start: s,
            length: w,
            payload: Seq::empty(),
        },
        None => OpModel {
            kind: OperationType::TRANSFER,
            start: cursor,
            length: w,
            payload: win,
        },
    }
}

/// The final irregular-length TRANSFER covering the remainder of `new`
/// from `cursor` on.
pub open spec fn tail_op(new: Seq<u8>, cursor: int) -> OpModel {
    OpModel {
        kind: OperationType::TRANSFER,
        start: cursor,
        length: new.len() - cursor,
        payload: new.subrange(cursor, new.len() as int),
    }
}

/// The instruction sequence the diff builder emits from `cursor` on: a full
/// window instruction and a step of one window size while a full window
/// remains, then one TRANSFER for any shorter remainder.
pub open spec fn analyze_ops(old: Seq<u8>, new: Seq<u8>, w: int, cursor: int) -> Seq<OpModel>
    decreases new.len() - cursor
        when 1 <= w && 0 <= cursor <= new.len()
{
    if cursor + w <= new.len() {
        seq![op_at(old, new, w, cursor)] + analyze_ops(old, new, w, cursor + w)
    } else if cursor < new.len() {
        seq![tail_op(new, cursor)]
    } else {
        Seq::empty()
    }
}

/// The bytes one instruction contributes to the output: a slice of the old
/// buffer for COPY, the payload for TRANSFER.
pub open spec fn op_bytes(old: Seq<u8>, op: OpModel) -> Seq<u8> {
    if op.kind == OperationType::COPY {
        old.subrange(op.start, op.start + op.length)
    } else {
        op.payload
    }
}

/// A COPY instruction's range lies within the old buffer's bounds.
pub open spec fn op_in_range(old: Seq<u8>, op: OpModel) -> bool {
    &&& 0 <= op.start
    &&& 0 <= op.length
    &&& (op.kind == OperationType::COPY ==> op.start + op.length <= old.len())
}

/// Every COPY instruction's range lies within the old buffer's bounds.
pub open spec fn ops_in_range(old: Seq<u8>, ops: Seq<OpModel>) -> bool {
    forall|i: int| 0 <= i < ops.len() ==> op_in_range(old, #[trigger] ops[i])
}

/// The concatenation of the bytes each instruction contributes, in order.
pub open spec fn restore_spec(old: Seq<u8>, ops: Seq<OpModel>) -> Seq<u8>
    decreases ops.len(),
{
    if ops.len() == 0 {
        Seq::empty()
    } else {
        restore_spec(old, ops.drop_last()) + op_bytes(old, ops.last())
    }
}

/// Replays an instruction sequence against the old buffer: appends, per
/// instruction in order, either the addressed slice of the old buffer or
/// the instruction's payload. Fails with `OutOfRangeCopy`, producing no
/// partial result, exactly when some COPY range exceeds the old buffer.
pub fn sliding_window_restore(original_bytes: &Vec<u8>, operations: Vec<Operation>) -> (r: Result<
    Vec<u8>,
    DeltaError,
>)
    ensures
        match r {
            Ok(out) => ops_in_range(original_bytes@, ops_view(operations@)) && out@
                == restore_spec(original_bytes@, ops_view(operations@)),
            Err(e) => e == DeltaError::OutOfRangeCopy && !ops_in_range(
                original_bytes@,
                ops_view(operations@),
            ),
        },
{
    let ghost all = ops_view(operations@);
    let mut result: Vec<u8> = Vec::new();
    let n = operations.len();
    let mut i: usize = 0;
    assert(all.subrange(0, 0) =~= Seq::<OpModel>::empty());
    while i < n
        invariant
            i <= n,
            n == operations@.len(),
            all == ops_view(operations@),
            all.len() == n,
            forall|k: int| 0 <= k < i ==> op_in_range(original_bytes@, #[trigger] all[k]),
            result@ == restore_spec(original_bytes@, all.subrange(0, i as int)),
        decreases n - i,
    {
        let op = &operations[i];
        assert(all[i as int] == op@);
        match op.operation_type {
            OperationType::COPY => {
                if op.bytes > original_bytes.len() || op.start > original_bytes.len() - op.bytes {
                    assert(!op_in_range(original_bytes@, all[i as int]));
                    return Err(DeltaError::OutOfRangeCopy);
                }
                push_range(&mut result, original_bytes.as_slice(), op.start, op.start + op.bytes);
            },
            OperationType::TRANSFER => {
                push_range(&mut result, op.payload.as_slice(), 0, op.payload.len());
                assert(op.payload@.subrange(0, op.payload@.len() as int) =~= op.payload@);
            },
        }
        proof {
            let pre = all.subrange(0, i as int);
            let post = all.subrange(0, i + 1 as int);
            assert(post.drop_last() =~= pre);
            assert(post.last() == all[i as int]);
        }
        i += 1;
    }
    assert(all.subrange(0, n as int) =~= all);
    Ok(result)
}

/// The index built from a buffer's window descriptors answers a lookup
/// exactly as `find_match_upto` does on the buffer itself.
proof fn lemma_index_find(entries: Seq<Chunk>, old: Seq<u8>, w: int, h: Seq<u8>)
    requires
        forall|i: int| 0 <= i < entries.len() ==> chunk_matches(#[trigger] entries[i], old, w, i),
    ensures
        last_entry_match(entries, h) == find_match_upto(old, w, entries.len() as int, h),
    decreases entries.len(),
{
    if entries.len() > 0 {
        let n = entries.len() as int;
        assert(chunk_matches(entries[n - 1], old, w, n - 1));
        assert(entries.last() == entries[n - 1]);
        assert forall|i: int| 0 <= i < entries.drop_last().len() implies chunk_matches(
            #[trigger] entries.drop_last()[i],
            old,
            w,
            i,
        ) by {
            assert(entries.drop_last()[i] == entries[i]);
        }
        lemma_index_find(entries.drop_last(), old, w, h);
    }
}

/// Walks the new buffer's window descriptors in ascending position order,
/// skipping those already covered, and emits one instruction per uncovered
/// descriptor: COPY from the matched old position on an index hit, TRANSFER
/// of the window's bytes on a miss, the cursor advancing by a full window
/// either way; a remainder shorter than one window becomes a final
/// TRANSFER. Fails exactly when `window_size` is zero.
pub fn sliding_window_analyze(
    original_bytes: &Vec<u8>,
    modified_bytes: &Vec<u8>,
    window_size: usize,
) -> (r: Result<Vec<Operation>, DeltaError>)
    ensures
        match r {
            Ok(ops) => window_size >= 1 && ops_view(ops@) == analyze_ops(
                original_bytes@,
                modified_bytes@,
                window_size as int,
                0,
            ),
            Err(e) => window_size == 0 && e == DeltaError::InvalidWindowSize,
        },
{
    let ghost old_s = original_bytes@;
    let ghost new_s = modified_bytes@;
    let ghost w = window_size as int;

    let old_container = match windows(original_bytes, window_size) {
        Ok(c) => c,
        Err(e) => {
            return Err(e);
        },
    };
    let old_index = old_container.hash_to_chunk();
    let new_container = match windows(modified_bytes, window_size) {
        Ok(c) => c,
        Err(e) => {
            return Err(e);
        },
    };

    proof {
        assert forall|i: int| 0 <= i < old_index.entries@.len() implies chunk_matches(
            #[trigger] old_index.entries@[i],
            old_s,
            w,
            i,
        ) by {
            assert(chunk_matches(old_container.chunks@[i], old_s, w, i));
        }
    }

    let new_len = modified_bytes.len();
    let mut last_position: usize = 0;
    let mut operations: Vec<Operation> = Vec::new();
    let n = new_container.chunks.len();
    let mut j: usize = 0;
    proof {
        assert(ops_view(operations@) =~= Seq::<OpModel>::empty());
        assert(ops_view(operations@) + analyze_ops(old_s, new_s, w, 0) =~= analyze_ops(
            old_s,
            new_s,
            w,
            0,
        ));
    }
    while j < n
        invariant
            1 <= window_size,
            w == window_size as int,
            old_s == original_bytes@,
            new_s == modified_bytes@,
            n == new_container.chunks@.len(),
            new_len == new_s.len(),
            chunks_wf(new_container.chunks@, new_s, w),
            old_index.entries@.len() == window_count(old_s.len() as int, w),
            forall|i: int| 0 <= i < old_index.entries@.len() ==> chunk_matches(
                #[trigger] old_index.entries@[i],
                old_s,
                w,
                i,
            ),
            j <= n,
            j <= last_position < j + window_size,
            last_position == 0 || last_position <= new_s.len(),
            analyze_ops(old_s, new_s, w, 0) == ops_view(operations@) + analyze_ops(
                old_s,
                new_s,
                w,
                last_position as int,
            ),
        decreases n - j,
    {
        let chunk = &new_container.chunks[j];
        assert(chunk_matches(new_container.chunks@[j as int], new_s, w, j as int));
        if chunk.position < last_position {
            j += 1;
            continue;
        }
        assert(last_position == j);
        assert(j + window_size <= new_len);
        assert(chunk.position == j && chunk.size == window_size);
        let ghost win = new_s.subrange(j as int, j as int + w);
        proof {
            assert(chunk.hash@ == digest_of(win));
            lemma_index_find(old_index.entries@, old_s, w, chunk.hash@);
        }
        let found = old_index.lookup(&chunk.hash);
        let op = match found {
            Some(pos) => Operation {
                operation_type: OperationType::COPY,
                start: pos,
                bytes: chunk.size,
                payload: Vec::new(),
            },
            None => {
                let payload = vstd::slice::slice_to_vec(
                    vstd::slice::slice_subrange(
                        modified_bytes.as_slice(),
                        chunk.position,
                        chunk.position + chunk.size,
                    ),
                );
                Operation {
                    operation_type: OperationType::TRANSFER,
                    start: chunk.position,
                    bytes: chunk.size,
                    payload,
                }
            },
        };
        proof {
            assert(op@ == op_at(old_s, new_s, w, j as int));
            assert(analyze_ops(old_s, new_s, w, j as int) == seq![
                op_at(old_s, new_s, w, j as int),
            ] + analyze_ops(old_s, new_s, w, j as int + w));
            assert(ops_view(operations@.push(op)) =~= ops_view(operations@).push(op@));
            assert(ops_view(operations@).push(op@) + analyze_ops(old_s, new_s, w, j as int + w)
                =~= ops_view(operations@) + (seq![op@] + analyze_ops(
                old_s,
                new_s,
                w,
                j as int + w,
            )));
        }
        operations.push(op);
        last_position += window_size;
        j += 1;
    }
    assert(last_position as int + w > new_s.len());
    if last_position < modified_bytes.len() {
        let payload = vstd::slice::slice_to_vec(
            vstd::slice::slice_subrange(
                modified_bytes.as_slice(),
                last_position,
                modified_bytes.len(),
            ),
        );
        let op = Operation {
            operation_type: OperationType::TRANSFER,
            start: last_position,
            bytes: modified_bytes.len() - last_position,
            payload,
        };
        proof {
            assert(op@ == tail_op(new_s, last_position as int));
            assert(analyze_ops(old_s, new_s, w, last_position as int) == seq![
                tail_op(new_s, last_position as int),
            ]);
            assert(ops_view(operations@.push(op)) =~= ops_view(operations@).push(op@));
            assert(ops_view(operations@).push(op@) =~= ops_view(operations@) + seq![op@]);
        }
        operations.push(op);
    } else {
        proof {
            assert(analyze_ops(old_s, new_s, w, last_position as int) =~= Seq::<OpModel>::empty());
            assert(ops_view(operations@) + Seq::<OpModel>::empty() =~= ops_view(operations@));
        }
    }
    Ok(operations)
}

/// Appends `src[from..to]` to `out`.
fn push_range(out: &mut Vec<u8>, src: &[u8], from: usize, to: usize)
    requires
        from <= to <= src@.len(),
    ensures
        final(out)@ == old(out)@ + src@.subrange(from as int, to as int),
{
    let mut k: usize = from;
    assert(out@ =~= old(out)@ + src@.subrange(from as int, from as int));
    while k < to
        invariant
            from <= k <= to <= src@.len(),
            out@ == old(out)@ + src@.subrange(from as int, k as int),
        decreases to - k,
    {
        out.push(src[k]);
        assert(out@ =~= old(out)@ + src@.subrange(from as int, k + 1 as int));
        k += 1;
    }
}

} // verus!

//! The library's laws: what holds of the diff builder and the replayer
//! together, proved over their mathematical models.

use vstd::prelude::*;
use crate::digest::digest_of;
use crate::window::window_count;
use crate::delta::{
    analyze_ops, find_match, find_match_upto, op_at, op_bytes, op_in_range, ops_in_range,
    restore_spec, tail_op, OpModel, OperationType,
};

verus! {

/// No window of `old` and window of `new` of distinct content share a
/// fingerprint. True of any pair of buffers unless the digest collides,
/// which its cryptographic strength is relied on to prevent.
pub open spec fn collision_free(old: Seq<u8>, new: Seq<u8>, w: int) -> bool {
    forall|i: int, j: int|
        0 <= i && i + w <= old.len() && 0 <= j && j + w <= new.len() && #[trigger] digest_of(
            old.subrange(i, i + w),
        ) == #[trigger] digest_of(new.subrange(j, j + w)) ==> old.subrange(i, i + w)
            == new.subrange(j, j + w)
}

/// The sum of the lengths the instructions claim to contribute.
pub open spec fn total_length(ops: Seq<OpModel>) -> int
    decreases ops.len(),
{
    if ops.len() == 0 {
        0
    } else {
        total_length(ops.drop_last()) + ops.last().length
    }
}

/// A found fingerprint belongs to a window that lies within the buffer.
proof fn lemma_find_match_upto_some(old: Seq<u8>, w: int, n: int, h: Seq<u8>, s: int)
    requires
        find_match_upto(old, w, n, h) == Some(s),
    ensures
        0 <= s < n,
        digest_of(old.subrange(s, s + w)) == h,
    decreases n,
{
    if n > 0 && digest_of(old.subrange(n - 1, n - 1 + w)) != h {
        lemma_find_match_upto_some(old, w, n - 1, h, s);
    }
}

/// A fingerprint that some window carries is found.
proof fn lemma_find_match_upto_finds(old: Seq<u8>, w: int, n: int, h: Seq<u8>, p: int)
    requires
        0 <= p < n,
        digest_of(old.subrange(p, p + w)) == h,
    ensures
        find_match_upto(old, w, n, h) is Some,
    decreases n,
{
    if digest_of(old.subrange(n - 1, n - 1 + w)) != h {
        lemma_find_match_upto_finds(old, w, n - 1, h, p);
    }
}

/// Replay distributes over concatenation of instruction sequences.
proof fn lemma_restore_concat(old: Seq<u8>, a: Seq<OpModel>, b: Seq<OpModel>)
    ensures
        restore_spec(old, a + b) == restore_spec(old, a) + restore_spec(old, b),
    decreases b.len(),
{
    if b.len() == 0 {
        assert(a + b =~= a);
        assert(restore_spec(old, a) + restore_spec(old, b) =~= restore_spec(old, a));
    } else {
        lemma_restore_concat(old, a, b.drop_last());
        assert((a + b).drop_last() =~= a + b.drop_last());
        assert((a + b).last() == b.last());
        assert(restore_spec(old, a) + restore_spec(old, b.drop_last()) + op_bytes(old, b.last())
            =~= restore_spec(old, a) + (restore_spec(old, b.drop_last()) + op_bytes(
            old,
            b.last(),
        )));
    }
}

/// Replaying one instruction contributes that instruction's bytes.
proof fn lemma_restore_singleton(old: Seq<u8>, op: OpModel)
    ensures
        restore_spec(old, seq![op]) == op_bytes(old, op),
{
    assert(seq![op].drop_last() =~= Seq::<OpModel>::empty());
    assert(seq![op].last() == op);
    assert(restore_spec(old, Seq::<OpModel>::empty()) == Seq::<u8>::empty());
    assert(Seq::<u8>::empty() + op_bytes(old, op) =~= op_bytes(old, op));
}

/// The instruction the diff builder emits for the window at `cursor`
/// contributes exactly that window of the new buffer, given fingerprints
/// do not collide between the two buffers.
proof fn lemma_op_at_bytes(old: Seq<u8>, new: Seq<u8>, w: int, cursor: int)
    requires
        1 <= w,
        0 <= cursor,
        cursor + w <= new.len(),
        collision_free(old, new, w),
    ensures
        op_bytes(old, op_at(old, new, w, cursor)) == new.subrange(cursor, cursor + w),
{
    let win = new.subrange(cursor, cursor + w);
    let h = digest_of(win);
    match find_match(old, w, h) {
        Some(s) => {
            lemma_find_match_upto_some(old, w, window_count(old.len() as int, w), h, s);
            assert(s + w <= old.len());
            assert(digest_of(old.subrange(s, s + w)) == digest_of(new.subrange(cursor, cursor + w)));
            assert(old.subrange(s, s + w) == win);
        },
        None => {},
    }
}

/// Replaying the diff builder's instructions from `cursor` on yields the
/// rest of the new buffer.
proof fn lemma_restore_analyze(old: Seq<u8>, new: Seq<u8>, w: int, cursor: int)
    requires
        1 <= w,
        0 <= cursor <= new.len(),
        collision_free(old, new, w),
    ensures
        restore_spec(old, analyze_ops(old, new, w, cursor)) == new.subrange(
            cursor,
            new.len() as int,
        ),
    decreases new.len() - cursor,
{
    if cursor + w <= new.len() {
        let op = op_at(old, new, w, cursor);
        let rest = analyze_ops(old, new, w, cursor + w);
        lemma_restore_analyze(old, new, w, cursor + w);
        lemma_restore_concat(old, seq![op], rest);
        lemma_restore_singleton(old, op);
        lemma_op_at_bytes(old, new, w, cursor);
        assert(new.subrange(cursor, cursor + w) + new.subrange(cursor + w, new.len() as int)
            =~= new.subrange(cursor, new.len() as int));
    } else if cursor < new.len() {
        lemma_restore_singleton(old, tail_op(new, cursor));
    } else {
        assert(analyze_ops(old, new, w, cursor) =~= Seq::<OpModel>::empty());
        assert(new.subrange(cursor, new.len() as int) =~= Seq::<u8>::empty());
    }
}

/// Every COPY the diff builder emits addresses a window that lies within
/// the old buffer.
pub proof fn lemma_analyze_in_range(old: Seq<u8>, new: Seq<u8>, w: int, cursor: int)
    requires
        1 <= w,
        0 <= cursor <= new.len(),
    ensures
        ops_in_range(old, analyze_ops(old, new, w, cursor)),
    decreases new.len() - cursor,
{
    let ops = analyze_ops(old, new, w, cursor);
    if cursor + w <= new.len() {
        let op = op_at(old, new, w, cursor);
        let rest = analyze_ops(old, new, w, cursor + w);
        lemma_analyze_in_range(old, new, w, cursor + w);
        let win = new.subrange(cursor, cursor + w);
        let h = digest_of(win);
        if find_match(old, w, h) is Some {
            let s = find_match(old, w, h)->Some_0;
            lemma_find_match_upto_some(old, w, window_count(old.len() as int, w), h, s);
        }
        assert(op_in_range(old, op));
        assert forall|i: int| 0 <= i < ops.len() implies op_in_range(old, #[trigger] ops[i]) by {
            if i == 0 {
                assert(ops[0] == op);
            } else {
                assert(ops[i] == rest[i - 1]);
                assert(op_in_range(old, rest[i - 1]));
            }
        }
    } else if cursor < new.len() {
        assert(op_in_range(old, tail_op(new, cursor)));
        assert(forall|i: int| 0 <= i < ops.len() ==> #[trigger] ops[i] == tail_op(new, cursor));
    }
}

/// Round trip: for any two buffers and any window size of at least one,
/// replaying the instructions of `analyze` against the old buffer yields
/// the new buffer exactly, and every emitted COPY is in range — given no
/// fingerprint collision between windows of the two buffers.
pub proof fn lemma_round_trip(old: Seq<u8>, new: Seq<u8>, w: int)
    requires
        1 <= w,
        collision_free(old, new, w),
    ensures
        restore_spec(old, analyze_ops(old, new, w, 0)) == new,
        ops_in_range(old, analyze_ops(old, new, w, 0)),
{
    lemma_restore_analyze(old, new, w, 0);
    assert(new.subrange(0, new.len() as int) =~= new);
    lemma_analyze_in_range(old, new, w, 0);
}

/// Total coverage from `cursor` on: the emitted lengths sum to what
/// remains of the new buffer.
proof fn lemma_total_coverage_from(old: Seq<u8>, new: Seq<u8>, w: int, cursor: int)
    requires
        1 <= w,
        0 <= cursor <= new.len(),
    ensures
        total_length(analyze_ops(old, new, w, cursor)) == new.len() - cursor,
    decreases new.len() - cursor,
{
    let ops = analyze_ops(old, new, w, cursor);
    if cursor + w <= new.len() {
        let op = op_at(old, new, w, cursor);
        let rest = analyze_ops(old, new, w, cursor + w);
        lemma_total_coverage_from(old, new, w, cursor + w);
        lemma_total_concat(seq![op], rest);
        assert(total_length(seq![op]) == op.length) by {
            assert(seq![op].drop_last() =~= Seq::<OpModel>::empty());
            assert(total_length(Seq::<OpModel>::empty()) == 0);
        }
        assert(op.length == w);
    } else if cursor < new.len() {
        assert(ops == seq![tail_op(new, cursor)]);
        assert(ops.drop_last() =~= Seq::<OpModel>::empty());
        assert(total_length(Seq::<OpModel>::empty()) == 0);
        assert(ops.last() == tail_op(new, cursor));
    }
}

/// Summed length distributes over concatenation.
proof fn lemma_total_concat(a: Seq<OpModel>, b: Seq<OpModel>)
    ensures
        total_length(a + b) == total_length(a) + total_length(b),
    decreases b.len(),
{
    if b.len() == 0 {
        assert(a + b =~= a);
    } else {
        lemma_total_concat(a, b.drop_last());
        assert((a + b).drop_last() =~= a + b.drop_last());
        assert((a + b).last() == b.last());
    }
}

/// Total coverage: the sum of `length` over the instructions of `analyze`
/// equals the new buffer's length.
pub proof fn lemma_total_coverage(old: Seq<u8>, new: Seq<u8>, w: int)
    requires
        1 <= w,
    ensures
        total_length(analyze_ops(old, new, w, 0)) == new.len(),
{
    lemma_total_coverage_from(old, new, w, 0);
}

/// On identical buffers every TRANSFER from `cursor` on is the short tail.
proof fn lemma_identical_from(buf: Seq<u8>, w: int, cursor: int)
    requires
        1 <= w,
        0 <= cursor <= buf.len(),
    ensures
        forall|i: int|
            0 <= i < analyze_ops(buf, buf, w, cursor).len() && (#[trigger] analyze_ops(
                buf,
                buf,
                w,
                cursor,
            )[i]).kind == OperationType::TRANSFER ==> analyze_ops(buf, buf, w, cursor)[i].length
                < w,
    decreases buf.len() - cursor,
{
    let ops = analyze_ops(buf, buf, w, cursor);
    if cursor + w <= buf.len() {
        let op = op_at(buf, buf, w, cursor);
        let rest = analyze_ops(buf, buf, w, cursor + w);
        lemma_identical_from(buf, w, cursor + w);
        let win = buf.subrange(cursor, cursor + w);
        let h = digest_of(win);
        lemma_find_match_upto_finds(buf, w, window_count(buf.len() as int, w), h, cursor);
        assert(op.kind == OperationType::COPY);
        assert forall|i: int|
            0 <= i < ops.len() && (#[trigger] ops[i]).kind == OperationType::TRANSFER implies
            ops[i].length < w by {
            if i == 0 {
                assert(ops[0] == op);
            } else {
                assert(ops[i] == rest[i - 1]);
            }
        }
    } else if cursor < buf.len() {
        assert(forall|i: int| 0 <= i < ops.len() ==> #[trigger] ops[i] == tail_op(buf, cursor));
    }
}

/// Identical buffers: diffing a buffer against itself emits COPY for every
/// full window; only the remainder shorter than one window, if any, is a
/// TRANSFER, and replaying the delta reproduces the buffer.
pub proof fn lemma_identical_buffers_copy(buf: Seq<u8>, w: int)
    requires
        1 <= w,
    ensures
        forall|i: int|
            0 <= i < analyze_ops(buf, buf, w, 0).len() && (#[trigger] analyze_ops(
                buf,
                buf,
                w,
                0,
            )[i]).kind == OperationType::TRANSFER ==> analyze_ops(buf, buf, w, 0)[i].length < w,
        collision_free(buf, buf, w) ==> restore_spec(buf, analyze_ops(buf, buf, w, 0)) == buf,
{
    lemma_identical_from(buf, w, 0);
    if collision_free(buf, buf, w) {
        lemma_round_trip(buf, buf, w);
    }
}

/// Degenerate window size: a window larger than both buffers forces
/// exactly one TRANSFER instruction spanning the full new buffer.
pub proof fn lemma_degenerate_window(old: Seq<u8>, new: Seq<u8>, w: int)
    requires
        1 <= w,
        w > old.len(),
        w > new.len(),
        new.len() >= 1,
    ensures
        analyze_ops(old, new, w, 0).len() == 1,
        analyze_ops(old, new, w, 0)[0].kind == OperationType::TRANSFER,
        analyze_ops(old, new, w, 0)[0].start == 0,
        analyze_ops(old, new, w, 0)[0].length == new.len(),
        analyze_ops(old, new, w, 0)[0].payload == new,
{
    assert(new.subrange(0, new.len() as int) =~= new);
}

/// Empty new buffer: the delta is empty, and replaying an empty delta
/// yields an empty buffer.
pub proof fn lemma_empty_new(old: Seq<u8>, w: int)
    requires
        1 <= w,
    ensures
        analyze_ops(old, Seq::<u8>::empty(), w, 0) == Seq::<OpModel>::empty(),
        restore_spec(old, Seq::<OpModel>::empty()) == Seq::<u8>::empty(),
{
}

} // verus!

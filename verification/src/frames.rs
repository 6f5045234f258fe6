//! The layout of the log on stable storage: one frame after the other, each one the index of an
//! entry in eight bytes, the length of its payload in four, and the payload. Numbers are
//! big-endian. A crash can leave a frame half written at the end.

use vstd::prelude::*;

verus! {

/// One frame.
pub struct Frame {
    pub index: u64,
    pub payload: Seq<u8>,
}

/// The number of values of a field of `width` bytes.
pub open spec fn pow256(width: nat) -> nat
    decreases width,
{
    if width == 0 {
        1
    } else {
        256 * pow256((width - 1) as nat)
    }
}

/// The low `width` bytes of a number, the highest one first.
pub open spec fn be_bytes(n: nat, width: nat) -> Seq<u8>
    decreases width,
{
    if width == 0 {
        Seq::<u8>::empty()
    } else {
        be_bytes(n / 256, (width - 1) as nat).push((n % 256) as u8)
    }
}

/// The number that bytes spell, the highest one first.
pub open spec fn be_value(bytes: Seq<u8>) -> nat
    decreases bytes.len(),
{
    if bytes.len() == 0 {
        0
    } else {
        256 * be_value(bytes.drop_last()) + bytes.last() as nat
    }
}

pub proof fn lemma_be_bytes(n: nat, width: nat)
    ensures
        be_bytes(n, width).len() == width,
        n < pow256(width) ==> be_value(be_bytes(n, width)) == n,
    decreases width,
{
    if width > 0 {
        lemma_be_bytes(n / 256, (width - 1) as nat);
        let bytes = be_bytes(n, width);
        assert(bytes.drop_last() =~= be_bytes(n / 256, (width - 1) as nat));
    }
}

pub proof fn lemma_be_value_bound(bytes: Seq<u8>)
    ensures
        be_value(bytes) < pow256(bytes.len()),
    decreases bytes.len(),
{
    if bytes.len() > 0 {
        lemma_be_value_bound(bytes.drop_last());
    }
}

/// The number of bytes before the payload.
pub const HEADER: usize = 12;

/// The bytes of a frame. A length that does not fit its field is cut to the low four bytes.
pub open spec fn frame_bytes(frame: Frame) -> Seq<u8> {
    be_bytes(frame.index as nat, 8) + be_bytes(frame.payload.len(), 4) + frame.payload
}

/// The bytes of a list of frames.
pub open spec fn frames_bytes(frames: Seq<Frame>) -> Seq<u8>
    decreases frames.len(),
{
    if frames.len() == 0 {
        Seq::<u8>::empty()
    } else {
        frames_bytes(frames.drop_last()) + frame_bytes(frames.last())
    }
}

/// The number of bytes that a list of frames takes.
pub open spec fn frames_size(frames: Seq<Frame>) -> nat
    decreases frames.len(),
{
    if frames.len() == 0 {
        0
    } else {
        frames_size(frames.drop_last()) + HEADER as nat + frames.last().payload.len()
    }
}

/// The length that the frame at `pos` claims for its payload.
pub open spec fn length_at(bytes: Seq<u8>, pos: int) -> nat {
    be_value(bytes.subrange(pos + 8, pos + 12))
}

/// Whether there is a whole frame at `pos`.
pub open spec fn whole_at(bytes: Seq<u8>, pos: int) -> bool {
    &&& pos + HEADER <= bytes.len()
    &&& pos + HEADER + length_at(bytes, pos) <= bytes.len()
}

/// The frame at `pos`.
pub open spec fn frame_at(bytes: Seq<u8>, pos: int) -> Frame {
    Frame {
        index: be_value(bytes.subrange(pos, pos + 8)) as u64,
        payload: bytes.subrange(pos + HEADER, pos + HEADER + length_at(bytes, pos)),
    }
}

/// The whole frames from `pos` on, up to the first one that is cut off.
pub open spec fn frames_from(bytes: Seq<u8>, pos: int) -> Seq<Frame>
    decreases bytes.len() - pos,
{
    if 0 <= pos && whole_at(bytes, pos) {
        seq![frame_at(bytes, pos)] + frames_from(
            bytes,
            pos + HEADER + length_at(bytes, pos),
        )
    } else {
        Seq::<Frame>::empty()
    }
}

/// The whole frames of a log.
pub open spec fn frames_of(bytes: Seq<u8>) -> Seq<Frame> {
    frames_from(bytes, 0)
}

/// The frames before the first one with the given index.
pub open spec fn frames_before(frames: Seq<Frame>, index: u64) -> Seq<Frame>
    decreases frames.len(),
{
    if frames.len() == 0 || frames[0].index == index {
        Seq::<Frame>::empty()
    } else {
        seq![frames[0]] + frames_before(frames.skip(1), index)
    }
}

/// Payloads as frames with consecutive indices.
pub open spec fn numbered(start: u64, payloads: Seq<Seq<u8>>) -> Seq<Frame> {
    Seq::new(
        payloads.len(),
        |i: int| Frame { index: (start + i) as u64, payload: payloads[i] },
    )
}

/// Appends the low `width` bytes of `n`.
fn push_be(buffer: &mut Vec<u8>, n: u64, width: usize)
    ensures
        final(buffer)@ == old(buffer)@ + be_bytes(n as nat, width as nat),
    decreases width,
{
    if width > 0 {
        push_be(buffer, n / 256, width - 1);
        buffer.push((n % 256) as u8);
    }
    assert(buffer@ =~= old(buffer)@ + be_bytes(n as nat, width as nat));
}

/// Reads the number in the `width` bytes at `pos`.
fn read_be(bytes: &[u8], pos: usize, width: usize) -> (n: u64)
    requires
        width <= 8,
        pos + width <= bytes@.len(),
    ensures
        n == be_value(bytes@.subrange(pos as int, pos + width)),
        n < pow256(width as nat),
{
    let size: usize = bytes.len();
    let mut n: u64 = 0;
    let mut i: usize = 0;
    assert(bytes@.subrange(pos as int, pos as int) =~= Seq::<u8>::empty());
    while i < width
        invariant
            width <= 8,
            pos + width <= size,
            size == bytes@.len(),
            i <= width,
            n == be_value(bytes@.subrange(pos as int, pos + i)),
        decreases width - i,
    {
        let ghost next = bytes@.subrange(pos as int, pos + i + 1);
        proof {
            assert(next.drop_last() =~= bytes@.subrange(pos as int, pos + i));
            lemma_be_value_bound(next);
            lemma_pow256_grows((i + 1) as nat, 8);
            assert(pow256(8) == 0x1_0000_0000_0000_0000) by {
                reveal_with_fuel(pow256, 9);
            }
        }
        n = 256 * n + bytes[pos + i] as u64;
        i = i + 1;
    }
    proof {
        lemma_be_value_bound(bytes@.subrange(pos as int, pos + width));
    }
    n
}

proof fn lemma_pow256_grows(low: nat, high: nat)
    requires
        low <= high,
    ensures
        pow256(low) <= pow256(high),
    decreases high,
{
    if low < high {
        lemma_pow256_grows(low, (high - 1) as nat);
    }
}

/// Appends a frame to a buffer.
pub fn push_frame(buffer: &mut Vec<u8>, index: u64, payload: &Vec<u8>)
    ensures
        final(buffer)@ == old(buffer)@ + frame_bytes(Frame { index, payload: payload@ }),
{
    push_be(buffer, index, 8);
    push_be(buffer, payload.len() as u64, 4);
    let mut copy = payload.clone();
    assert(copy@ =~= payload@);
    buffer.append(&mut copy);
    assert(buffer@ =~= old(buffer)@ + frame_bytes(Frame { index, payload: payload@ }));
}

/// A whole frame, and the position after it.
pub struct Found {
    pub index: u64,
    pub payload_start: usize,
    pub next: usize,
}

/// Looks for a whole frame at `pos`.
pub fn find_frame(bytes: &[u8], pos: usize) -> (found: Option<Found>)
    requires
        pos <= bytes@.len(),
    ensures
        found is Some <==> whole_at(bytes@, pos as int),
        found matches Some(frame) ==> {
            &&& frame.index == frame_at(bytes@, pos as int).index
            &&& frame.payload_start == pos + HEADER
            &&& frame.next == pos + HEADER + length_at(bytes@, pos as int)
            &&& frame.next <= bytes@.len()
        },
{
    if bytes.len() - pos < HEADER {
        return None;
    }
    let index: u64 = read_be(bytes, pos, 8);
    let length: u64 = read_be(bytes, pos + 8, 4);
    let rest: usize = bytes.len() - pos - HEADER;
    if length > rest as u64 {
        return None;
    }
    Some(Found { index, payload_start: pos + HEADER, next: pos + HEADER + length as usize })
}

/// Where the frame with the given index begins, or where the whole frames end if there is none.
pub fn cut_position(bytes: &[u8], index: u64) -> (at: usize)
    ensures
        at == frames_size(frames_before(frames_of(bytes@), index)),
        at <= bytes@.len(),
{
    let ghost all = frames_of(bytes@);
    let ghost mut done = Seq::<Frame>::empty();
    let mut pos: usize = 0;
    assert(done + frames_before(all, index) =~= frames_before(all, index));
    loop
        invariant
            pos <= bytes@.len(),
            pos == frames_size(done),
            frames_before(all, index) == done + frames_before(
                frames_from(bytes@, pos as int),
                index,
            ),
        ensures
            pos <= bytes@.len(),
            pos == frames_size(frames_before(all, index)),
        decreases bytes@.len() - pos,
    {
        let ghost rest = frames_from(bytes@, pos as int);
        let ghost next = frame_at(bytes@, pos as int);
        match find_frame(bytes, pos) {
            None => {
                assert(done + frames_before(rest, index) =~= done);
                break;
            },
            Some(frame) => {
                assert(rest.skip(1) =~= frames_from(bytes@, frame.next as int));
                if frame.index == index {
                    assert(done + frames_before(rest, index) =~= done);
                    break;
                }
                proof {
                    assert(done + frames_before(rest, index) =~= done.push(next) + frames_before(
                        rest.skip(1),
                        index,
                    ));
                    assert(done.push(next).drop_last() =~= done);
                    done = done.push(next);
                }
                pos = frame.next;
            },
        }
    }
    pos
}

// ------------------------------------------------------------------------------------------ laws

proof fn lemma_be_inverse(bytes: Seq<u8>)
    ensures
        be_bytes(be_value(bytes), bytes.len()) == bytes,
    decreases bytes.len(),
{
    if bytes.len() > 0 {
        let front = bytes.drop_last();
        lemma_be_inverse(front);
        let n = be_value(bytes);
        assert(n / 256 == be_value(front) && n % 256 == bytes.last());
        assert(be_bytes(n, bytes.len()) =~= bytes);
    } else {
        assert(be_bytes(be_value(bytes), bytes.len()) =~= bytes);
    }
}

proof fn lemma_pow256()
    ensures
        pow256(4) == 0x1_0000_0000,
        pow256(8) == 0x1_0000_0000_0000_0000,
{
    reveal_with_fuel(pow256, 9);
}

/// Whether the lengths of all payloads fit their field.
pub open spec fn frames_fit(frames: Seq<Frame>) -> bool {
    forall|i: int| 0 <= i < frames.len() ==> (#[trigger] frames[i]).payload.len() <= u32::MAX
}

proof fn lemma_frames_size(frames: Seq<Frame>)
    ensures
        frames_bytes(frames).len() == frames_size(frames),
    decreases frames.len(),
{
    if frames.len() > 0 {
        lemma_frames_size(frames.drop_last());
        lemma_be_bytes(frames.last().index as nat, 8);
        lemma_be_bytes(frames.last().payload.len(), 4);
    }
}

proof fn lemma_frames_concat(a: Seq<Frame>, b: Seq<Frame>)
    ensures
        frames_bytes(a + b) == frames_bytes(a) + frames_bytes(b),
        frames_size(a + b) == frames_size(a) + frames_size(b),
    decreases b.len(),
{
    if b.len() > 0 {
        lemma_frames_concat(a, b.drop_last());
        assert((a + b).drop_last() =~= a + b.drop_last());
        assert(frames_bytes(a + b) =~= frames_bytes(a) + frames_bytes(b));
    } else {
        assert(a + b =~= a);
        assert(frames_bytes(a) + frames_bytes(b) =~= frames_bytes(a));
    }
}

/// The bytes of frames are read back as those frames, wherever they stand.
proof fn lemma_frames_read(bytes: Seq<u8>, pos: int, frames: Seq<Frame>)
    requires
        0 <= pos,
        pos + frames_size(frames) <= bytes.len(),
        bytes.subrange(pos, pos + frames_size(frames)) == frames_bytes(frames),
        frames_fit(frames),
    ensures
        frames_from(bytes, pos) == frames + frames_from(bytes, pos + frames_size(frames)),
    decreases frames.len(),
{
    if frames.len() == 0 {
        assert(frames + frames_from(bytes, pos) =~= frames_from(bytes, pos));
    } else {
        let front = frames.drop_last();
        let last = frames.last();
        let at = pos + frames_size(front);
        let whole = frames_bytes(frames);
        lemma_frames_size(frames);
        lemma_frames_size(front);
        lemma_pow256();
        lemma_be_bytes(last.index as nat, 8);
        lemma_be_bytes(last.payload.len(), 4);
        assert(whole.take(frames_size(front) as int) =~= frames_bytes(front));
        assert(bytes.subrange(pos, at) =~= bytes.subrange(pos, pos + frames_size(frames)).take(
            frames_size(front) as int,
        ));
        lemma_frames_read(bytes, pos, front);
        let own = frame_bytes(last);
        assert(bytes.subrange(at, at + own.len()) =~= own) by {
            assert(whole.skip(frames_size(front) as int) =~= own);
            assert(bytes.subrange(at, at + own.len()) =~= bytes.subrange(
                pos,
                pos + frames_size(frames),
            ).skip(frames_size(front) as int));
        }
        assert(bytes.subrange(at, at + 8) =~= be_bytes(last.index as nat, 8)) by {
            assert(bytes.subrange(at, at + 8) =~= bytes.subrange(at, at + own.len()).take(8));
        }
        assert(bytes.subrange(at + 8, at + 12) =~= be_bytes(last.payload.len(), 4)) by {
            assert(bytes.subrange(at + 8, at + 12) =~= bytes.subrange(
                at,
                at + own.len(),
            ).subrange(8, 12));
        }
        assert(bytes.subrange(at + 12, at + own.len()) =~= last.payload) by {
            assert(bytes.subrange(at + 12, at + own.len()) =~= bytes.subrange(
                at,
                at + own.len(),
            ).skip(12));
        }
        assert(frame_at(bytes, at) == last);
        assert(frames + frames_from(bytes, pos + frames_size(frames)) =~= front + (seq![last]
            + frames_from(bytes, at + own.len())));
    }
}

/// The frames that are read are the bytes that they were read from.
proof fn lemma_frames_written(bytes: Seq<u8>, pos: int, k: int)
    requires
        0 <= pos <= bytes.len(),
        0 <= k <= frames_from(bytes, pos).len(),
    ensures
        pos + frames_size(frames_from(bytes, pos).take(k)) <= bytes.len(),
        bytes.subrange(pos, pos + frames_size(frames_from(bytes, pos).take(k))) == frames_bytes(
            frames_from(bytes, pos).take(k),
        ),
        frames_fit(frames_from(bytes, pos).take(k)),
    decreases k,
{
    let frames = frames_from(bytes, pos);
    if k == 0 {
        assert(frames.take(0) =~= Seq::<Frame>::empty());
        assert(bytes.subrange(pos, pos) =~= Seq::<u8>::empty());
    } else {
        let frame = frame_at(bytes, pos);
        let length = length_at(bytes, pos);
        let next = pos + HEADER + length;
        let rest = frames_from(bytes, next);
        lemma_frames_written(bytes, next, k - 1);
        assert(frames.take(k) =~= seq![frame] + rest.take(k - 1));
        lemma_frames_concat(seq![frame], rest.take(k - 1));
        let one = seq![frame];
        assert(one.drop_last() =~= Seq::<Frame>::empty());
        assert(frames_size(one.drop_last()) == 0);
        assert(one.last() == frame);
        assert(frames_size(one) == HEADER + length);
        assert(frames_bytes(one.drop_last()) =~= Seq::<u8>::empty());
        assert(frames_bytes(seq![frame]) =~= frame_bytes(frame));
        lemma_be_value_bound(bytes.subrange(pos, pos + 8));
        lemma_be_value_bound(bytes.subrange(pos + 8, pos + 12));
        lemma_pow256();
        lemma_be_inverse(bytes.subrange(pos, pos + 8));
        lemma_be_inverse(bytes.subrange(pos + 8, pos + 12));
        assert(frame_bytes(frame) =~= bytes.subrange(pos, next));
        let end = pos + frames_size(frames.take(k));
        assert(bytes.subrange(pos, end) =~= bytes.subrange(pos, next) + bytes.subrange(next, end));
    }
}

proof fn lemma_frames_before(frames: Seq<Frame>, index: u64) -> (k: int)
    ensures
        0 <= k <= frames.len(),
        frames_before(frames, index) == frames.take(k),
        forall|i: int| 0 <= i < k ==> (#[trigger] frames[i]).index != index,
        k < frames.len() ==> frames[k].index == index,
    decreases frames.len(),
{
    if frames.len() == 0 || frames[0].index == index {
        assert(frames.take(0) =~= Seq::<Frame>::empty());
        0
    } else {
        let k = lemma_frames_before(frames.skip(1), index);
        assert(seq![frames[0]] + frames.skip(1).take(k) =~= frames.take(k + 1));
        assert forall|i: int| 0 <= i < k + 1 implies (#[trigger] frames[i]).index != index by {
            if i > 0 {
                assert(frames.skip(1)[i - 1].index != index);
            }
        }
        k + 1
    }
}

/// Numbers are big-endian: of two pieces the first one is the higher, and a byte by itself is its
/// own value. A number is written in as many bytes as its field has, and is read back.
pub proof fn law_numbers_are_big_endian(high: Seq<u8>, low: Seq<u8>, byte: u8, n: nat, width: nat)
    ensures
        be_value(seq![byte]) == byte,
        be_value(high + low) == be_value(high) * pow256(low.len()) + be_value(low),
        be_bytes(n, width).len() == width,
        n < pow256(width) ==> be_value(be_bytes(n, width)) == n,
        pow256(8) == 0x1_0000_0000_0000_0000,
    decreases low.len(),
{
    lemma_be_bytes(n, width);
    lemma_pow256();
    assert(seq![byte].drop_last() =~= Seq::<u8>::empty());
    assert(be_value(Seq::<u8>::empty()) == 0);
    assert(be_value(seq![byte]) == 256 * be_value(seq![byte].drop_last()) + seq![byte].last());
    if low.len() == 0 {
        assert(high + low =~= high);
        assert(pow256(0) == 1);
    } else {
        let front = low.drop_last();
        law_numbers_are_big_endian(high, front, byte, n, width);
        assert((high + low).drop_last() =~= high + front);
        let size = pow256(front.len());
        assert(pow256(low.len()) == 256 * size);
        assert(256 * (be_value(high) * size) == be_value(high) * (256 * size)) by (nonlinear_arith);
    }
}

/// A frame is the index of its entry in eight bytes, the length of its payload in four, and the
/// payload, and frames stand one after the other.
pub proof fn law_frames_are_laid_out(frame: Frame, frames: Seq<Frame>)
    requires
        frame.payload.len() <= u32::MAX,
    ensures
        frame_bytes(frame).len() == 12 + frame.payload.len(),
        be_value(frame_bytes(frame).take(8)) == frame.index,
        be_value(frame_bytes(frame).subrange(8, 12)) == frame.payload.len(),
        frame_bytes(frame).skip(12) == frame.payload,
        frames_bytes(frames.push(frame)) == frames_bytes(frames) + frame_bytes(frame),
        frames_bytes(Seq::<Frame>::empty()) == Seq::<u8>::empty(),
{
    let bytes = frame_bytes(frame);
    lemma_be_bytes(frame.index as nat, 8);
    lemma_be_bytes(frame.payload.len(), 4);
    lemma_pow256();
    assert(bytes.take(8) =~= be_bytes(frame.index as nat, 8));
    assert(bytes.subrange(8, 12) =~= be_bytes(frame.payload.len(), 4));
    assert(bytes.skip(12) =~= frame.payload);
    assert(frames.push(frame).drop_last() =~= frames);
}

/// Frames that were written are read back, and those before the first one with an index are all
/// that come before it.
pub proof fn law_written_frames_are_read(frames: Seq<Frame>, index: u64, k: int)
    requires
        frames_fit(frames),
        0 <= k <= frames.len(),
        forall|i: int| 0 <= i < k ==> (#[trigger] frames[i]).index != index,
        k < frames.len() ==> frames[k].index == index,
    ensures
        frames_of(frames_bytes(frames)) == frames,
        frames_before(frames, index) == frames.take(k),
{
    let bytes = frames_bytes(frames);
    lemma_frames_size(frames);
    assert(bytes.subrange(0, bytes.len() as int) =~= bytes);
    lemma_frames_read(bytes, 0, frames);
    assert(frames_from(bytes, bytes.len() as int).len() == 0);
    assert(frames + frames_from(bytes, bytes.len() as int) =~= frames);
    let found = lemma_frames_before(frames, index);
    if found < k {
        assert(frames[found].index != index);
    }
    if k < found {
        assert(frames[k].index != index);
    }
}

/// What is written over a log from the frame with a given index on is read back after the frames
/// before it, and nothing else is.
pub proof fn law_overwritten_logs(bytes: Seq<u8>, index: u64, added: Seq<Frame>)
    requires
        frames_fit(added),
    ensures
        frames_size(frames_before(frames_of(bytes), index)) <= bytes.len(),
        frames_of(
            bytes.take(frames_size(frames_before(frames_of(bytes), index)) as int) + frames_bytes(
                added,
            ),
        ) == frames_before(frames_of(bytes), index) + added,
        frames_before(frames_of(bytes), index).is_prefix_of(frames_of(bytes)),
        frames_size(frames_before(frames_of(bytes), index) + added) == frames_size(
            frames_before(frames_of(bytes), index),
        ) + frames_bytes(added).len(),
{
    let kept = frames_before(frames_of(bytes), index);
    let k = lemma_frames_before(frames_of(bytes), index);
    lemma_frames_written(bytes, 0, k);
    let cut = frames_size(kept) as int;
    let all = kept + added;
    let after = bytes.take(cut) + frames_bytes(added);
    lemma_frames_concat(kept, added);
    lemma_frames_size(added);
    assert(bytes.subrange(0, cut) =~= bytes.take(cut));
    assert(after.subrange(0, frames_size(all) as int) =~= frames_bytes(all));
    assert(frames_fit(all));
    lemma_frames_read(after, 0, all);
    assert(frames_from(after, after.len() as int).len() == 0);
    assert(all + frames_from(after, after.len() as int) =~= all);
}

/// A frame that a crash has cut off is not read, and does not keep those before it from being
/// read.
pub proof fn law_partial_frames_are_dropped(frames: Seq<Frame>, partial: Frame, written: int)
    requires
        frames_fit(frames),
        partial.payload.len() <= u32::MAX,
        0 <= written < frame_bytes(partial).len(),
    ensures
        frames_of(frames_bytes(frames) + frame_bytes(partial).take(written)) == frames,
{
    let own = frame_bytes(partial);
    let tail = own.take(written);
    let bytes = frames_bytes(frames) + tail;
    let at = frames_size(frames) as int;
    lemma_frames_size(frames);
    assert(bytes.subrange(0, at) =~= frames_bytes(frames));
    lemma_frames_read(bytes, 0, frames);
    lemma_be_bytes(partial.index as nat, 8);
    lemma_be_bytes(partial.payload.len(), 4);
    lemma_pow256();
    if written >= HEADER {
        assert(bytes.subrange(at + 8, at + 12) =~= be_bytes(partial.payload.len(), 4));
    }
    assert(!whole_at(bytes, at));
    assert(frames + frames_from(bytes, at) =~= frames);
}

} // verus!

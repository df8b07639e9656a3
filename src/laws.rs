//! Properties of the recording format that hold of every buffer.

use vstd::prelude::*;
use crate::demo::{
    decode_error, decodes, demo_model, demo_rest, frame_fits, frame_len, frame_model, frames_fit,
    frames_model, frames_rest, header_model, FrameModel, HEADER_LEN,
};
use crate::text::{field_text, is_text_end, lemma_text_end, lossy_text, FIELD_LEN};
use crate::wire::{le_u32_at, magic, DecodeError, MAGIC_LEN};

verus! {

/// Each frame's payload has the size that the frame declares.
pub open spec fn payloads_match(fs: Seq<FrameModel>) -> bool {
    forall|i: int| 0 <= i < fs.len() ==> (#[trigger] fs[i]).buffer.len() == fs[i].sub_packet_size
}

proof fn lemma_frames_shape(s: Seq<u8>, n: nat)
    requires
        frames_fit(s, n),
    ensures
        frames_model(s, n).len() == n,
        payloads_match(frames_model(s, n)),
    decreases n,
{
    if n > 0 {
        lemma_frames_shape(s.skip(frame_len(s)), (n - 1) as nat);
        let fs = frames_model(s, n);
        let tail = frames_model(s.skip(frame_len(s)), (n - 1) as nat);
        assert forall|i: int| 0 <= i < fs.len() implies (#[trigger] fs[i]).buffer.len()
            == fs[i].sub_packet_size by {
            if i > 0 {
                assert(fs[i] == tail[i - 1]);
            }
        }
    }
}

/// A buffer that holds a whole recording decodes to exactly as many frames
/// as its header declares, each with a payload of its declared size.
pub proof fn lemma_decoded_shape(s: Seq<u8>)
    requires
        decodes(s),
    ensures
        demo_model(s).frames.len() == demo_model(s).header.playback_frames,
        payloads_match(demo_model(s).frames),
{
    lemma_frames_shape(s.skip(HEADER_LEN as int), demo_model(s).header.playback_frames as nat);
}

/// A buffer shorter than a header whose bytes agree with the signature is
/// incomplete, not malformed.
pub proof fn lemma_short_buffer_incomplete(s: Seq<u8>)
    requires
        s.len() < HEADER_LEN,
        forall|i: int| 0 <= i < s.len() && i < MAGIC_LEN ==> s[i] == #[trigger] magic()[i],
    ensures
        !decodes(s),
        decode_error(s) == DecodeError::Incomplete,
{
}

/// A buffer whose first eight bytes are not the signature is malformed,
/// whatever follows them.
pub proof fn lemma_bad_signature_malformed(s: Seq<u8>)
    requires
        s.len() >= MAGIC_LEN,
        s.take(MAGIC_LEN as int) != magic(),
    ensures
        !decodes(s),
        decode_error(s) == DecodeError::MalformedFraming,
{
    if forall|i: int| 0 <= i < s.len() && i < MAGIC_LEN ==> s[i] == #[trigger] magic()[i] {
        assert(s.take(MAGIC_LEN as int) =~= magic());
    }
}

/// The text of a field whose first null byte is at position 5 is the
/// decoding of the five bytes before it.
pub proof fn lemma_text_cut_at_fifth(region: Seq<u8>)
    requires
        region.len() == FIELD_LEN,
        region[5] == 0,
        forall|j: int| 0 <= j < 5 ==> region[j] != 0,
    ensures
        field_text(region) == lossy_text(region.take(5)),
{
    assert(is_text_end(region, 5));
    lemma_text_end(region, 5);
}

/// Decoding depends on the bytes alone: equal buffers decode alike, to equal
/// recordings and rests, or to the same error.
pub proof fn lemma_decode_deterministic(a: Seq<u8>, b: Seq<u8>)
    requires
        a == b,
    ensures
        decodes(a) == decodes(b),
        demo_model(a) == demo_model(b),
        demo_rest(a) == demo_rest(b),
        decode_error(a) == decode_error(b),
{
}

/// The four bytes that store `v` little-endian.
pub open spec fn le_bytes(v: u32) -> Seq<u8> {
    seq![
        (v % 256) as u8,
        (v / 256 % 256) as u8,
        (v / 256 / 256 % 256) as u8,
        (v / 256 / 256 / 256) as u8,
    ]
}

/// The bytes of a frame record: its three integers, then its payload.
pub open spec fn frame_bytes(f: FrameModel) -> Seq<u8> {
    le_bytes(f.server_frame) + le_bytes(f.client_frame) + le_bytes(f.sub_packet_size) + f.buffer
}

/// The bytes of a sequence of frame records, one after the other.
pub open spec fn frames_bytes(fs: Seq<FrameModel>) -> Seq<u8>
    decreases fs.len(),
{
    if fs.len() == 0 {
        Seq::empty()
    } else {
        frame_bytes(fs[0]) + frames_bytes(fs.drop_first())
    }
}

proof fn lemma_le_bytes(v: u32, s: Seq<u8>, i: int)
    requires
        0 <= i,
        i + 4 <= s.len(),
        s.subrange(i, i + 4) == le_bytes(v),
    ensures
        le_u32_at(s, i) == v,
{
    assert(s[i] == le_bytes(v)[0]);
    assert(s[i + 1] == le_bytes(v)[1]);
    assert(s[i + 2] == le_bytes(v)[2]);
    assert(s[i + 3] == le_bytes(v)[3]);
}

proof fn lemma_frame_round_trip(f: FrameModel, after: Seq<u8>)
    requires
        f.buffer.len() == f.sub_packet_size,
    ensures
        frame_fits(frame_bytes(f) + after),
        frame_model(frame_bytes(f) + after) == f,
        (frame_bytes(f) + after).skip(frame_len(frame_bytes(f) + after)) == after,
{
    let s = frame_bytes(f) + after;
    assert(s.subrange(0, 4) =~= le_bytes(f.server_frame));
    lemma_le_bytes(f.server_frame, s, 0);
    assert(s.subrange(4, 8) =~= le_bytes(f.client_frame));
    lemma_le_bytes(f.client_frame, s, 4);
    assert(s.subrange(8, 12) =~= le_bytes(f.sub_packet_size));
    lemma_le_bytes(f.sub_packet_size, s, 8);
    assert(frame_len(s) == 12 + f.buffer.len());
    assert(s.subrange(12, frame_len(s)) =~= f.buffer);
    assert(s.skip(frame_len(s)) =~= after);
}

proof fn lemma_frames_round_trip(fs: Seq<FrameModel>, t: Seq<u8>)
    requires
        payloads_match(fs),
    ensures
        frames_fit(frames_bytes(fs) + t, fs.len()),
        frames_model(frames_bytes(fs) + t, fs.len()) == fs,
        frames_rest(frames_bytes(fs) + t, fs.len()) == t,
    decreases fs.len(),
{
    let s = frames_bytes(fs) + t;
    if fs.len() == 0 {
        assert(s =~= t);
        assert(frames_model(s, 0) =~= fs);
    } else {
        let f = fs[0];
        let tail = fs.drop_first();
        let after = frames_bytes(tail) + t;
        assert(payloads_match(tail)) by {
            assert forall|i: int| 0 <= i < tail.len() implies (#[trigger] tail[i]).buffer.len()
                == tail[i].sub_packet_size by {
                assert(tail[i] == fs[i + 1]);
            }
        }
        lemma_frames_round_trip(tail, t);
        assert(s =~= frame_bytes(f) + after);
        lemma_frame_round_trip(f, after);
        assert(frames_model(s, fs.len()) =~= fs);
    }
}

/// A buffer made of a header, frame records written one after the other as
/// many as the header declares, each with a payload of its declared size, and
/// any further bytes, decodes to that header and exactly those frames, and
/// leaves the further bytes.
pub proof fn lemma_encoded_decodes(h: Seq<u8>, fs: Seq<FrameModel>, t: Seq<u8>)
    requires
        h.len() == HEADER_LEN,
        h.take(MAGIC_LEN as int) == magic(),
        le_u32_at(h, 1064) == fs.len(),
        payloads_match(fs),
    ensures
        decodes(h + frames_bytes(fs) + t),
        demo_model(h + frames_bytes(fs) + t).header == header_model(h),
        demo_model(h + frames_bytes(fs) + t).frames == fs,
        demo_model(h + frames_bytes(fs) + t).frames.len() == demo_model(
            h + frames_bytes(fs) + t,
        ).header.playback_frames,
        demo_rest(h + frames_bytes(fs) + t) == t,
{
    let s = h + frames_bytes(fs) + t;
    assert(s.subrange(0, HEADER_LEN as int) =~= h);
    assert forall|i: int| 0 <= i < s.len() && i < MAGIC_LEN implies s[i] == #[trigger] magic()[i] by {
        assert(h.take(MAGIC_LEN as int)[i] == h[i]);
    }
    assert(s.subrange(16, 276) =~= h.subrange(16, 276));
    assert(s.subrange(276, 536) =~= h.subrange(276, 536));
    assert(s.subrange(536, 796) =~= h.subrange(536, 796));
    assert(s.subrange(796, 1056) =~= h.subrange(796, 1056));
    assert(header_model(s) == header_model(h));
    assert(s.skip(HEADER_LEN as int) =~= frames_bytes(fs) + t);
    lemma_frames_round_trip(fs, t);
}

} // verus!

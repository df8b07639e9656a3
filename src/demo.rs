//! The recording: its header, its frame records, and the decoder that ties
//! them together.

use vstd::prelude::*;
use crate::text::{field_text, pathstr, FIELD_LEN};
use crate::wire::{framing_error, le_u32, le_u32_at, magic_consistent, signature, take, DecodeError};

verus! {

/// Number of bytes of the header: the signature, two integers, four text
/// fields and four more 32-bit values.
pub const HEADER_LEN: usize = 1072;

/// Number of bytes of a frame record before its payload.
pub const FRAME_HEAD_LEN: usize = 12;

/// The header of a recording.
///
/// `playback_time_bits` holds the bits of the little-endian 32-bit float that
/// the header stores as the playback time (`f32::from_bits` gives its value).
#[derive(Debug, Clone, PartialEq)]
pub struct Header {
    pub demo_protocol: u32,
    pub network_protocol: u32,
    pub server_name: String,
    pub client_name: String,
    pub map_name: String,
    pub game_directory: String,
    pub playback_time_bits: u32,
    pub playback_ticks: u32,
    pub playback_frames: u32,
    pub signon_length: u32,
}

/// A header with its text fields as sequences of characters.
pub struct HeaderModel {
    pub demo_protocol: u32,
    pub network_protocol: u32,
    pub server_name: Seq<char>,
    pub client_name: Seq<char>,
    pub map_name: Seq<char>,
    pub game_directory: Seq<char>,
    pub playback_time_bits: u32,
    pub playback_ticks: u32,
    pub playback_frames: u32,
    pub signon_length: u32,
}

impl View for Header {
    type V = HeaderModel;

    open spec fn view(&self) -> HeaderModel {
        HeaderModel {
            demo_protocol: self.demo_protocol,
            network_protocol: self.network_protocol,
            server_name: self.server_name@,
            client_name: self.client_name@,
            map_name: self.map_name@,
            game_directory: self.game_directory@,
            playback_time_bits: self.playback_time_bits,
            playback_ticks: self.playback_ticks,
            playback_frames: self.playback_frames,
            signon_length: self.signon_length,
        }
    }
}

/// One frame record: two counters, the declared payload size and the payload.
#[derive(Debug, Clone, PartialEq)]
pub struct Frame {
    pub server_frame: u32,
    pub client_frame: u32,
    pub sub_packet_size: u32,
    pub buffer: Vec<u8>,
}

/// A frame record with its payload as a sequence of bytes.
pub struct FrameModel {
    pub server_frame: u32,
    pub client_frame: u32,
    pub sub_packet_size: u32,
    pub buffer: Seq<u8>,
}

impl View for Frame {
    type V = FrameModel;

    open spec fn view(&self) -> FrameModel {
        FrameModel {
            server_frame: self.server_frame,
            client_frame: self.client_frame,
            sub_packet_size: self.sub_packet_size,
            buffer: self.buffer@,
        }
    }
}

/// A decoded recording: its header and its frames, in order.
#[derive(Debug, Clone, PartialEq)]
pub struct Demo {
    pub header: Header,
    pub frames: Vec<Frame>,
}

/// A decoded recording with its header and frames as models.
pub struct DemoModel {
    pub header: HeaderModel,
    pub frames: Seq<FrameModel>,
}

/// The models of a sequence of frames.
pub open spec fn frame_models(fs: Seq<Frame>) -> Seq<FrameModel> {
    fs.map_values(|f: Frame| f@)
}

impl View for Demo {
    type V = DemoModel;

    open spec fn view(&self) -> DemoModel {
        DemoModel { header: self.header@, frames: frame_models(self.frames@) }
    }
}

// ---- the layout, as functions of the bytes ----

/// The header that a buffer of at least `HEADER_LEN` bytes holds.
pub open spec fn header_model(s: Seq<u8>) -> HeaderModel {
    HeaderModel {
        demo_protocol: le_u32_at(s, 8),
        network_protocol: le_u32_at(s, 12),
        server_name: field_text(s.subrange(16, 276)),
        client_name: field_text(s.subrange(276, 536)),
        map_name: field_text(s.subrange(536, 796)),
        game_directory: field_text(s.subrange(796, 1056)),
        playback_time_bits: le_u32_at(s, 1056),
        playback_ticks: le_u32_at(s, 1060),
        playback_frames: le_u32_at(s, 1064),
        signon_length: le_u32_at(s, 1068),
    }
}

/// The buffer starts with a whole header.
pub open spec fn header_fits(s: Seq<u8>) -> bool {
    s.len() >= HEADER_LEN && magic_consistent(s)
}

/// Declared payload size of the frame record at the front of `s`.
pub open spec fn payload_len(s: Seq<u8>) -> int {
    le_u32_at(s, 8) as int
}

/// Number of bytes of the frame record at the front of `s`.
pub open spec fn frame_len(s: Seq<u8>) -> int {
    FRAME_HEAD_LEN + payload_len(s)
}

/// `s` starts with a whole frame record.
pub open spec fn frame_fits(s: Seq<u8>) -> bool {
    s.len() >= FRAME_HEAD_LEN && s.len() >= frame_len(s)
}

/// The frame record at the front of `s`.
pub open spec fn frame_model(s: Seq<u8>) -> FrameModel {
    FrameModel {
        server_frame: le_u32_at(s, 0),
        client_frame: le_u32_at(s, 4),
        sub_packet_size: le_u32_at(s, 8),
        buffer: s.subrange(FRAME_HEAD_LEN as int, frame_len(s)),
    }
}

/// `s` starts with `n` whole frame records, one after the other.
pub open spec fn frames_fit(s: Seq<u8>, n: nat) -> bool
    decreases n,
{
    n == 0 || (frame_fits(s) && frames_fit(s.skip(frame_len(s)), (n - 1) as nat))
}

/// The first `n` frame records of `s`.
pub open spec fn frames_model(s: Seq<u8>, n: nat) -> Seq<FrameModel>
    decreases n,
{
    if n == 0 {
        Seq::empty()
    } else {
        seq![frame_model(s)] + frames_model(s.skip(frame_len(s)), (n - 1) as nat)
    }
}

/// What follows the first `n` frame records of `s`.
pub open spec fn frames_rest(s: Seq<u8>, n: nat) -> Seq<u8>
    decreases n,
{
    if n == 0 {
        s
    } else {
        frames_rest(s.skip(frame_len(s)), (n - 1) as nat)
    }
}

/// Number of frame records that the header of `s` declares.
pub open spec fn frame_count(s: Seq<u8>) -> nat {
    header_model(s).playback_frames as nat
}

/// `s` holds a whole recording: a header and as many frame records as it
/// declares, possibly followed by further bytes.
pub open spec fn decodes(s: Seq<u8>) -> bool {
    header_fits(s) && frames_fit(s.skip(HEADER_LEN as int), frame_count(s))
}

/// The recording at the front of `s`, where `decodes(s)`.
pub open spec fn demo_model(s: Seq<u8>) -> DemoModel {
    DemoModel {
        header: header_model(s),
        frames: frames_model(s.skip(HEADER_LEN as int), frame_count(s)),
    }
}

/// The bytes of `s` after its recording, where `decodes(s)`.
pub open spec fn demo_rest(s: Seq<u8>) -> Seq<u8> {
    frames_rest(s.skip(HEADER_LEN as int), frame_count(s))
}

/// Why `s` does not decode, where it does not.
pub open spec fn decode_error(s: Seq<u8>) -> DecodeError {
    if header_fits(s) {
        DecodeError::Incomplete
    } else {
        framing_error(s)
    }
}

// ---- decoding ----

/// Decodes the header at the front of `input`.
pub fn header(input: &[u8]) -> (r: Result<(&[u8], Header), DecodeError>)
    ensures
        match r {
            Ok((rest, h)) => header_fits(input@) && h@ == header_model(input@) && rest@
                == input@.skip(HEADER_LEN as int),
            Err(e) => !header_fits(input@) && e == framing_error(input@),
        },
{
    let ghost s = input@;
    let rest = signature(input)?;
    let (rest, demo_protocol) = le_u32(rest)?;
    assert(demo_protocol == le_u32_at(s, 8));
    let (rest, network_protocol) = le_u32(rest)?;
    assert(network_protocol == le_u32_at(s, 12));
    assert(rest@ =~= s.skip(16));
    let (rest, server_name) = pathstr(rest)?;
    assert(s.skip(16).take(260) =~= s.subrange(16, 276));
    assert(rest@ =~= s.skip(276));
    let (rest, client_name) = pathstr(rest)?;
    assert(s.skip(276).take(260) =~= s.subrange(276, 536));
    assert(rest@ =~= s.skip(536));
    let (rest, map_name) = pathstr(rest)?;
    assert(s.skip(536).take(260) =~= s.subrange(536, 796));
    assert(rest@ =~= s.skip(796));
    let (rest, game_directory) = pathstr(rest)?;
    assert(s.skip(796).take(260) =~= s.subrange(796, 1056));
    let (rest, playback_time_bits) = le_u32(rest)?;
    assert(playback_time_bits == le_u32_at(s, 1056));
    let (rest, playback_ticks) = le_u32(rest)?;
    assert(playback_ticks == le_u32_at(s, 1060));
    let (rest, playback_frames) = le_u32(rest)?;
    assert(playback_frames == le_u32_at(s, 1064));
    let (rest, signon_length) = le_u32(rest)?;
    assert(signon_length == le_u32_at(s, 1068));
    assert(rest@ =~= s.skip(HEADER_LEN as int));
    let h = Header {
        demo_protocol,
        network_protocol,
        server_name,
        client_name,
        map_name,
        game_directory,
        playback_time_bits,
        playback_ticks,
        playback_frames,
        signon_length,
    };
    Ok((rest, h))
}

/// Decodes the frame record at the front of `input`: three little-endian
/// integers, then as many payload bytes as the third one declares.
pub fn frame(input: &[u8]) -> (r: Result<(&[u8], Frame), DecodeError>)
    ensures
        match r {
            Ok((rest, f)) => frame_fits(input@) && f@ == frame_model(input@) && rest@
                == input@.skip(frame_len(input@)),
            Err(e) => !frame_fits(input@) && e == DecodeError::Incomplete,
        },
{
    let ghost s = input@;
    let (rest, server_frame) = le_u32(input)?;
    let (rest, client_frame) = le_u32(rest)?;
    assert(client_frame == le_u32_at(s, 4));
    let (rest, sub_packet_size) = le_u32(rest)?;
    assert(sub_packet_size == le_u32_at(s, 8));
    assert(rest@ =~= s.skip(12));
    let (rest, payload) = take(rest, sub_packet_size as usize)?;
    assert(payload@ =~= s.subrange(12, frame_len(s)));
    assert(rest@ =~= s.skip(frame_len(s)));
    let f = Frame {
        server_frame,
        client_frame,
        sub_packet_size,
        buffer: vstd::slice::slice_to_vec(payload),
    };
    Ok((rest, f))
}

/// Decodes `count` frame records, one after the other; fails as soon as one
/// of them does.
pub fn frames(input: &[u8], count: usize) -> (r: Result<(&[u8], Vec<Frame>), DecodeError>)
    ensures
        match r {
            Ok((rest, fs)) => frames_fit(input@, count as nat) && frame_models(fs@)
                == frames_model(input@, count as nat) && rest@ == frames_rest(
                input@,
                count as nat,
            ),
            Err(e) => !frames_fit(input@, count as nat) && e == DecodeError::Incomplete,
        },
{
    let ghost s = input@;
    let ghost n = count as nat;
    let mut fs: Vec<Frame> = Vec::new();
    let mut cur = input;
    let mut i: usize = 0;
    assert(frame_models(fs@) =~= Seq::<FrameModel>::empty());
    assert(frames_model(s, n) =~= frame_models(fs@) + frames_model(s, n));
    while i < count
        invariant
            i <= count,
            s == input@,
            n == count as nat,
            frames_fit(s, n) == frames_fit(cur@, (count - i) as nat),
            frames_model(s, n) == frame_models(fs@) + frames_model(cur@, (count - i) as nat),
            frames_rest(s, n) == frames_rest(cur@, (count - i) as nat),
        decreases count - i,
    {
        // Each record starts directly with its three counters.
        match frame(cur) {
            Ok((next, f)) => {
                let ghost m = (count - i) as nat;
                assert(frames_model(cur@, m) == seq![f@] + frames_model(next@, (m - 1) as nat));
                proof {
                    let old_fs = fs@;
                    assert(frame_models(old_fs.push(f)) =~= frame_models(old_fs).push(f@));
                    assert(frame_models(old_fs) + (seq![f@] + frames_model(next@, (m - 1) as nat))
                        =~= frame_models(old_fs).push(f@) + frames_model(next@, (m - 1) as nat));
                }
                fs.push(f);
                cur = next;
                i = i + 1;
            },
            Err(e) => {
                assert(!frames_fit(cur@, (count - i) as nat));
                return Err(e);
            },
        }
    }
    assert(frame_models(fs@) + Seq::<FrameModel>::empty() =~= frame_models(fs@));
    Ok((cur, fs))
}

/// Decodes a whole recording: the header, then as many frame records as it
/// declares. The result holds the bytes after the last record.
pub fn demo(input: &[u8]) -> (r: Result<(&[u8], Demo), DecodeError>)
    ensures
        match r {
            Ok((rest, d)) => decodes(input@) && d@ == demo_model(input@) && rest@ == demo_rest(
                input@,
            ),
            Err(e) => !decodes(input@) && e == decode_error(input@),
        },
{
    let (rest, header) = header(input)?;
    let count = header.playback_frames as usize;
    let (rest, frames) = frames(rest, count)?;
    Ok((rest, Demo { header, frames }))
}

} // verus!

//! Compression of frame chunks with zstd, and the writing and reading of
//! whole files of compressed keyframes.
use vstd::prelude::*;
use crate::container::{
    build_nbl_file, chunk_entries, chunks_bytes, chunks_fit, container_spec, data_start,
    lemma_nbl_file_len, lemma_saved_chunks, lemma_saved_file_parses, nbl_file_bytes,
    all_frames, saved_header, IndexView,
};
use crate::frame::{
    chunk_spec, decode_chunk, encode_i_frame, i_frame_bytes, lemma_i_frame_roundtrip, FrameData,
    FrameView, IFrame, IFrameView, NblError,
};
use crate::header::{paths_fit, texture_views, NblHeader, TextureEntry, TextureView};
use crate::bytes::copy_range;

verus! {

/// What `zstd::decode_all` returns for the compressed bytes `data`: the
/// decompressed bytes, or `None` when `data` is not a valid zstd stream.
pub uninterp spec fn zstd_decompressed(data: Seq<u8>) -> Option<Seq<u8>>;

/// What `zstd::encode_all` returns for `data` at compression `level`: the
/// compressed bytes, or `None` when it reports an error.
pub uninterp spec fn zstd_compressed(data: Seq<u8>, level: i32) -> Option<Seq<u8>>;

/// Calls `zstd::decode_all` on `data`. The contract names its result
/// ([`zstd_decompressed`]); the error it may report is dropped.
#[verifier::external_body]
fn zstd_decode_all(data: &[u8]) -> (r: Option<Vec<u8>>)
    ensures
        match r {
            Some(v) => zstd_decompressed(data@) == Some(v@),
            None => zstd_decompressed(data@) is None,
        },
{
    zstd::decode_all(data).ok()
}

/// Calls `zstd::encode_all` on `data` at `level`. The contract names its
/// result ([`zstd_compressed`]) and states that zstd is lossless: decoding
/// what it returns gives `data` back. The error it may report is dropped.
#[verifier::external_body]
fn zstd_encode_all(data: &[u8], level: i32) -> (r: Option<Vec<u8>>)
    ensures
        match r {
            Some(c) => zstd_compressed(data@, level) == Some(c@) && zstd_decompressed(c@) == Some(
                data@,
            ),
            None => zstd_compressed(data@, level) is None,
        },
{
    zstd::encode_all(data, level).ok()
}

/// What decompressing and decoding the chunk `c` gives.
pub open spec fn compressed_chunk_spec(c: Seq<u8>) -> Result<FrameView, NblError> {
    match zstd_decompressed(c) {
        None => Err(NblError::Decompress),
        Some(raw) => chunk_spec(raw),
    }
}

/// Decompresses one frame chunk and decodes it.
pub fn decode_frame(compressed: &[u8]) -> (r: Result<FrameData, NblError>)
    ensures
        match r {
            Ok(f) => compressed_chunk_spec(compressed@) == Ok::<FrameView, NblError>(f@),
            Err(e) => compressed_chunk_spec(compressed@) == Err::<FrameView, NblError>(e),
        },
{
    match zstd_decode_all(compressed) {
        None => Err(NblError::Decompress),
        Some(raw) => decode_chunk(raw.as_slice()),
    }
}

/// Compresses one raw frame chunk at `level`, as a streaming writer stores
/// it; `Compress` when zstd reports an error. What comes out decompresses
/// and decodes as the raw chunk does.
pub fn compress_chunk(raw: &[u8], level: i32) -> (r: Result<Vec<u8>, NblError>)
    ensures
        match r {
            Ok(c) => zstd_compressed(raw@, level) == Some(c@) && compressed_chunk_spec(c@)
                == chunk_spec(raw@),
            Err(e) => e == NblError::Compress && zstd_compressed(raw@, level) is None,
        },
{
    match zstd_encode_all(raw, level) {
        Some(c) => Ok(c),
        None => Err(NblError::Compress),
    }
}

/// The `size` bytes that start `offset` bytes into the file `data`.
pub fn frame_chunk(data: &[u8], offset: u64, size: u32) -> (r: Result<Vec<u8>, NblError>)
    ensures
        match r {
            Ok(c) => offset + size <= data@.len() && c@ == data@.subrange(
                offset as int,
                offset + size,
            ),
            Err(e) => e == NblError::Truncated && offset + size > data@.len(),
        },
{
    let len = data.len();
    if offset > len as u64 || (size as u64) > (len as u64) - offset {
        return Err(NblError::Truncated);
    }
    let start = offset as usize;
    Ok(copy_range(data, start, start + size as usize))
}

/// The compressed chunks of `frames`, when every one compresses.
pub open spec fn compressed_chunks(frames: Seq<IFrameView>, level: i32) -> Seq<Seq<u8>> {
    Seq::new(frames.len(), |i: int| zstd_compressed(i_frame_bytes(frames[i]), level)->0)
}

/// Every frame of `frames` compresses at `level`.
pub open spec fn all_compress(frames: Seq<IFrameView>, level: i32) -> bool {
    forall|i: int| 0 <= i < frames.len() ==> #[trigger] zstd_compressed(i_frame_bytes(frames[i]), level) is Some
}

/// Every frame of `frames` can be written: its columns agree in length and
/// its particle count fits the `u32` count field.
pub open spec fn frames_wf(frames: Seq<IFrameView>) -> bool {
    forall|i: int| 0 <= i < frames.len() ==> #[trigger] frames[i].wf() && frames[i].ids.len() <= u32::MAX
}

/// The views of a list of I-frames.
pub open spec fn i_frame_views(frames: Seq<IFrame>) -> Seq<IFrameView> {
    frames.map_values(|f: IFrame| f@)
}

/// What reading back a written file gives, when every count and size fits
/// its field: the front of the file holds the header with the counts of what
/// was written, the textures, one index entry per frame and a keyframe table
/// that lists every frame; and the chunk that each entry locates decompresses
/// and decodes to the frame that was written.
pub open spec fn readable_back(
    h: NblHeader,
    ts: Seq<TextureView>,
    frames: Seq<IFrameView>,
    level: i32,
    bytes: Seq<u8>,
) -> bool {
    let cs = compressed_chunks(frames, level);
    let es = chunk_entries(data_start(ts, frames.len()), cs);
    (ts.len() <= 65535 && paths_fit(ts) && frames.len() <= u32::MAX && forall|i: int|
        0 <= i < cs.len() ==> #[trigger] cs[i].len() <= u32::MAX) ==> {
        &&& container_spec(bytes) == Ok::<IndexView, NblError>(
            IndexView {
                header: saved_header(h, ts, frames.len()),
                textures: ts,
                frame_indices: es,
                keyframe_indices: all_frames(frames.len()),
            },
        )
        &&& forall|i: int|
            0 <= i < frames.len() ==> es[i].0 + es[i].1 <= bytes.len() && compressed_chunk_spec(
                bytes.subrange(es[i].0 as int, es[i].0 + es[i].1),
            ) == Ok::<FrameView, NblError>(FrameView::I(#[trigger] frames[i]))
    }
}

/// Writes a complete file whose every frame is a compressed keyframe: the
/// frames are encoded and compressed at `level` one by one, then laid out
/// after the header, the textures and the two index tables. Fails with
/// `Compress` when zstd reports an error for a frame, and with `TooLarge`
/// when the file would not fit in memory.
pub fn encode_nbl_file(
    header: &NblHeader,
    textures: &Vec<TextureEntry>,
    frames: &Vec<IFrame>,
    level: i32,
) -> (r: Result<Vec<u8>, NblError>)
    requires
        frames_wf(i_frame_views(frames@)),
    ensures
        match r {
            Ok(bytes) => {
                &&& all_compress(i_frame_views(frames@), level)
                &&& bytes@ == nbl_file_bytes(
                    *header,
                    texture_views(textures@),
                    compressed_chunks(i_frame_views(frames@), level),
                )
                &&& readable_back(
                    *header,
                    texture_views(textures@),
                    i_frame_views(frames@),
                    level,
                    bytes@,
                )
            },
            Err(e) => (e == NblError::Compress && !all_compress(i_frame_views(frames@), level))
                || (e == NblError::TooLarge && all_compress(i_frame_views(frames@), level)
                && nbl_file_bytes(
                *header,
                texture_views(textures@),
                compressed_chunks(i_frame_views(frames@), level),
            ).len() > usize::MAX),
        },
{
    let ghost fv = i_frame_views(frames@);
    let mut chunks: Vec<Vec<u8>> = Vec::with_capacity(frames.len());
    let mut total: usize = 0;
    let mut fits = true;
    let mut i: usize = 0;
    while i < frames.len()
        invariant
            fv == i_frame_views(frames@),
            frames_wf(fv),
            i <= frames@.len(),
            chunks@.map_values(|c: Vec<u8>| c@) =~= compressed_chunks(fv, level).take(i as int),
            forall|j: int| 0 <= j < i ==> #[trigger] zstd_compressed(i_frame_bytes(fv[j]), level) is Some,
            forall|j: int|
                0 <= j < i ==> zstd_decompressed(#[trigger] compressed_chunks(fv, level)[j])
                    == Some(i_frame_bytes(fv[j])),
            fits ==> total == chunks_bytes(chunks@.map_values(|c: Vec<u8>| c@)).len(),
            !fits ==> chunks_bytes(chunks@.map_values(|c: Vec<u8>| c@)).len() > usize::MAX,
        decreases frames@.len() - i,
    {
        assert(fv[i as int] == frames@[i as int]@);
        assert(fv[i as int].wf());
        let raw = encode_i_frame(&frames[i]);
        match zstd_encode_all(raw.as_slice(), level) {
            None => {
                return Err(NblError::Compress);
            },
            Some(c) => {
                let ghost pre = chunks@.map_values(|c: Vec<u8>| c@);
                proof {
                    crate::bytes::lemma_column_push(pre, c@, |x: Seq<u8>| x);
                }
                if fits {
                    if c.len() > usize::MAX - total {
                        fits = false;
                    } else {
                        total = total + c.len();
                    }
                }
                assert(compressed_chunks(fv, level)[i as int] == c@);
                chunks.push(c);
                assert(chunks@.map_values(|c: Vec<u8>| c@) =~= pre.push(chunks@[i as int]@));
                i = i + 1;
            },
        }
    }
    assert(compressed_chunks(fv, level).take(frames@.len() as int) =~= compressed_chunks(fv, level));
    let ghost cs = compressed_chunks(fv, level);
    proof {
        lemma_nbl_file_len(*header, texture_views(textures@), cs);
    }
    if !fits {
        return Err(NblError::TooLarge);
    }
    let tex_len = crate::header::texture_block_len_checked(textures);
    match tex_len {
        None => {
            return Err(NblError::TooLarge);
        },
        Some(tl) => {
            let n = frames.len();
            // 48 + tl + 12n + 4 + 4n + total, checked step by step
            let fixed = checked_layout(tl, n);
            match fixed {
                None => {
                    return Err(NblError::TooLarge);
                },
                Some(ds) => {
                    if total > usize::MAX - ds {
                        return Err(NblError::TooLarge);
                    }
                },
            }
        },
    }
    let bytes = build_nbl_file(header, textures, &chunks);
    proof {
        lemma_readable_back(*header, texture_views(textures@), fv, level);
    }
    Ok(bytes)
}

/// A file written from frames that compress, and whose frame count fits,
/// reads back.
proof fn lemma_readable_back(h: NblHeader, ts: Seq<TextureView>, frames: Seq<IFrameView>, level: i32)
    requires
        frames_wf(frames),
        all_compress(frames, level),
        forall|j: int|
            0 <= j < frames.len() ==> zstd_decompressed(#[trigger] compressed_chunks(frames, level)[j])
                == Some(i_frame_bytes(frames[j])),
        nbl_file_bytes(h, ts, compressed_chunks(frames, level)).len() <= usize::MAX,
    ensures
        readable_back(h, ts, frames, level, nbl_file_bytes(h, ts, compressed_chunks(frames, level))),
{
    let cs = compressed_chunks(frames, level);
    let n = frames.len();
    let es = chunk_entries(data_start(ts, n), cs);
    let b = nbl_file_bytes(h, ts, cs);
    if ts.len() <= 65535 && paths_fit(ts) && n <= u32::MAX && forall|i: int|
        0 <= i < cs.len() ==> #[trigger] cs[i].len() <= u32::MAX {
        lemma_nbl_file_len(h, ts, cs);
        assert(chunks_fit(ts, cs));
        lemma_saved_file_parses(h, ts, cs);
        assert forall|i: int| 0 <= i < n implies es[i].0 + es[i].1 <= b.len() && compressed_chunk_spec(
            b.subrange(es[i].0 as int, es[i].0 + es[i].1),
        ) == Ok::<FrameView, NblError>(FrameView::I(#[trigger] frames[i])) by {
            lemma_saved_chunks(h, ts, cs, i);
            assert(frames[i].wf());
            lemma_i_frame_roundtrip(frames[i], Seq::empty());
            assert(i_frame_bytes(frames[i]) + Seq::<u8>::empty() =~= i_frame_bytes(frames[i]));
        }
    }
}

/// `48 + tl + 16 * n + 4`, when it fits in a `usize`.
fn checked_layout(tl: usize, n: usize) -> (r: Option<usize>)
    ensures
        match r {
            Some(v) => v == 48 + tl + 12 * n + 4 + 4 * n,
            None => 48 + tl + 12 * n + 4 + 4 * n > usize::MAX,
        },
{
    if n > (usize::MAX - 52) / 16 {
        return None;
    }
    let fixed = 52 + 16 * n;
    if tl > usize::MAX - fixed {
        return None;
    }
    Some(tl + fixed)
}


/// A decoded chunk has one entry per particle in every column.
pub proof fn lemma_chunk_wf_compressed(c: Seq<u8>)
    ensures
        compressed_chunk_spec(c) matches Ok(FrameView::I(f)) ==> f.wf(),
        compressed_chunk_spec(c) matches Ok(FrameView::P(f)) ==> f.wf(),
{
}

} // verus!

//! The whole-file layout of an `.nbl` file: header, texture block, frame
//! index table, keyframe table and the compressed frame chunks.
use vstd::prelude::*;
use crate::bytes::{
    column, lemma_column_element, lemma_column_len, lemma_column_prefix_len,
    lemma_column_push, lemma_u32_roundtrip, lemma_u32s_le_len, lemma_u32s_roundtrip,
    lemma_u64_roundtrip, push_bytes, push_u32, push_u32s, push_u64, read_u32, read_u32s,
    read_u64, u32_at, u32_le, u32s_at, u32s_le, u64_at, u64_le,
};
use crate::frame::NblError;
use crate::header::{
    check_magic, has_magic, header_at, header_bytes, push_header, push_textures, read_header,
    read_textures, texture_block_len, lemma_header_roundtrip, lemma_textures_roundtrip, paths_fit, texture_views, textures_at, textures_bytes, textures_len,
    NblHeader, TextureEntry, TextureView, HEADER_LEN,
};

verus! {

/// The tables read from the front of an `.nbl` file: everything a player
/// needs before it decodes frames.
#[derive(Clone, Debug)]
pub struct NblIndex {
    pub header: NblHeader,
    pub textures: Vec<TextureEntry>,
    /// Per frame: byte offset of its compressed chunk from the file start, and
    /// its byte size.
    pub frame_indices: Vec<(u64, u32)>,
    /// Frame numbers of the keyframes, as stored.
    pub keyframe_indices: Vec<u32>,
}

/// The mathematical content of an [`NblIndex`].
#[verifier::ext_equal]
pub struct IndexView {
    pub header: NblHeader,
    pub textures: Seq<TextureView>,
    pub frame_indices: Seq<(u64, u32)>,
    pub keyframe_indices: Seq<u32>,
}

impl View for NblIndex {
    type V = IndexView;

    open spec fn view(&self) -> IndexView {
        IndexView {
            header: self.header,
            textures: texture_views(self.textures@),
            frame_indices: self.frame_indices@,
            keyframe_indices: self.keyframe_indices@,
        }
    }
}

/// The 12 bytes of one frame index entry: the offset as a `u64`, then the
/// size as a `u32`.
pub open spec fn index_entry_bytes(e: (u64, u32)) -> Seq<u8> {
    u64_le(e.0) + u32_le(e.1)
}

/// The frame index table made of `es`.
pub open spec fn frame_index_bytes(es: Seq<(u64, u32)>) -> Seq<u8> {
    column(es, |e: (u64, u32)| index_entry_bytes(e))
}

/// The `n` frame index entries stored from `off`.
pub open spec fn frame_index_at(b: Seq<u8>, off: int, n: nat) -> Seq<(u64, u32)> {
    Seq::new(n, |i: int| (u64_at(b, off + 12 * i), u32_at(b, off + 12 * i + 8)))
}

/// A frame index entry is the chunk's offset as 8 little-endian bytes
/// followed by its size as 4.
pub proof fn lemma_index_entry_layout(e: (u64, u32))
    ensures
        index_entry_bytes(e).len() == 12,
        index_entry_bytes(e).subrange(0, 8) == u64_le(e.0),
        index_entry_bytes(e).subrange(8, 12) == u32_le(e.1),
{
    lemma_u64_roundtrip(e.0);
    lemma_u32_roundtrip(e.1);
    assert(index_entry_bytes(e).subrange(0, 8) =~= u64_le(e.0));
    assert(index_entry_bytes(e).subrange(8, 12) =~= u32_le(e.1));
}

/// Reading the frame index table from `off`: entry `i` takes its offset
/// from the 8 bytes at `off + 12 i` and its size from the 4 bytes after.
pub proof fn lemma_frame_index_fields(b: Seq<u8>, off: int, n: nat, i: int)
    requires
        0 <= off,
        off + 12 * n <= b.len(),
        0 <= i < n,
    ensures
        u64_le(frame_index_at(b, off, n)[i].0) == b.subrange(off + 12 * i, off + 12 * i + 8),
        u32_le(frame_index_at(b, off, n)[i].1) == b.subrange(off + 12 * i + 8, off + 12 * i + 12),
{
    assert(12 * i + 12 <= 12 * n) by (nonlinear_arith)
        requires
            i + 1 <= n,
    ;
    crate::bytes::lemma_u64_le_at(b, off + 12 * i);
    crate::bytes::lemma_u32_le_at(b, off + 12 * i + 8);
}

/// What the front of an `.nbl` file holds, or the error that reading it
/// meets: a short file fails with `Truncated` except that eight bytes that
/// are not `NEBULAFX` fail with `BadMagic`; the four reserved header bytes are
/// not looked at.
pub open spec fn container_spec(b: Seq<u8>) -> Result<IndexView, NblError> {
    if b.len() < 8 {
        Err(NblError::Truncated)
    } else if !has_magic(b) {
        Err(NblError::BadMagic)
    } else if b.len() < HEADER_LEN {
        Err(NblError::Truncated)
    } else {
        let h = header_at(b);
        match textures_at(b, HEADER_LEN as int, h.texture_count as nat) {
            None => Err(NblError::Truncated),
            Some((ts, p)) => {
                let n = h.total_frames as nat;
                if p + 12 * n + 4 > b.len() {
                    Err(NblError::Truncated)
                } else {
                    let q = p + 12 * n;
                    let k = u32_at(b, q) as nat;
                    if q + 4 + 4 * k > b.len() {
                        Err(NblError::Truncated)
                    } else {
                        Ok(
                            IndexView {
                                header: h,
                                textures: ts,
                                frame_indices: frame_index_at(b, p, n),
                                keyframe_indices: u32s_at(b, q + 4, k),
                            },
                        )
                    }
                }
            },
        }
    }
}

/// Reads `n` frame index entries stored from `off`.
fn read_frame_index(b: &[u8], off: usize, n: usize) -> (r: Vec<(u64, u32)>)
    requires
        off + 12 * n <= b@.len(),
    ensures
        r@ == frame_index_at(b@, off as int, n as nat),
{
    let len = b.len();
    let mut r: Vec<(u64, u32)> = Vec::with_capacity(n);
    let mut i: usize = 0;
    while i < n
        invariant
            i <= n,
            off + 12 * n <= b@.len(),
            len == b@.len(),
            r@ =~= frame_index_at(b@, off as int, i as nat),
        decreases n - i,
    {
        assert(off + 12 * i + 12 <= off + 12 * n);
        let o = read_u64(b, off + 12 * i);
        let s = read_u32(b, off + 12 * i + 8);
        r.push((o, s));
        i = i + 1;
    }
    r
}

/// Reads the header, texture block, frame index table and keyframe table
/// from the front of an `.nbl` file.
pub fn parse_container(b: &[u8]) -> (r: Result<NblIndex, NblError>)
    ensures
        match r {
            Ok(ix) => container_spec(b@) == Ok::<IndexView, NblError>(ix@),
            Err(e) => container_spec(b@) == Err::<IndexView, NblError>(e),
        },
{
    let len = b.len();
    if len < 8 {
        return Err(NblError::Truncated);
    }
    if !check_magic(b) {
        return Err(NblError::BadMagic);
    }
    if len < HEADER_LEN {
        return Err(NblError::Truncated);
    }
    let header = read_header(b);
    let (textures, p) = match read_textures(b, HEADER_LEN, header.texture_count) {
        None => {
            return Err(NblError::Truncated);
        },
        Some(x) => x,
    };
    let n = header.total_frames as usize;
    if ((len - p) as u64) < 12 * (n as u64) + 4 {
        return Err(NblError::Truncated);
    }
    let frame_indices = read_frame_index(b, p, n);
    let q = p + 12 * n;
    let k = read_u32(b, q) as usize;
    if ((len - q - 4) as u64) < 4 * (k as u64) {
        return Err(NblError::Truncated);
    }
    let keyframe_indices = read_u32s(b, q + 4, k);
    let ix = NblIndex { header, textures, frame_indices, keyframe_indices };
    assert(ix@ =~= IndexView {
        header: header_at(b@),
        textures: texture_views(ix.textures@),
        frame_indices: frame_index_at(b@, p as int, n as nat),
        keyframe_indices: u32s_at(b@, q + 4, k as nat),
    });
    Ok(ix)
}


/// All the chunks of `chunks`, one after another.
pub open spec fn chunks_bytes(chunks: Seq<Seq<u8>>) -> Seq<u8> {
    column(chunks, |c: Seq<u8>| c)
}

/// Byte length of the first `i` chunks.
pub open spec fn chunks_len_before(chunks: Seq<Seq<u8>>, i: int) -> nat {
    chunks_bytes(chunks.take(i)).len()
}

/// Where the frame data starts in a file with the texture block `ts` and
/// `n` frames whose keyframe table lists every frame.
pub open spec fn data_start(ts: Seq<TextureView>, n: nat) -> nat {
    48 + textures_len(ts) + 12 * n + 4 + 4 * n
}

/// The frame index entries of `chunks` laid out one after another from
/// `start`.
pub open spec fn chunk_entries(start: nat, chunks: Seq<Seq<u8>>) -> Seq<(u64, u32)> {
    Seq::new(
        chunks.len(),
        |i: int| ((start + chunks_len_before(chunks, i)) as u64, chunks[i].len() as u32),
    )
}

/// The keyframe table of a file whose every frame is a keyframe.
pub open spec fn all_frames(n: nat) -> Seq<u32> {
    Seq::new(n, |i: int| i as u32)
}

/// `h` with the frame and texture counts of the data written after it.
pub open spec fn saved_header(h: NblHeader, ts: Seq<TextureView>, n: nat) -> NblHeader {
    NblHeader {
        version: h.version,
        target_fps: h.target_fps,
        total_frames: n as u32,
        texture_count: ts.len() as u16,
        attributes: h.attributes,
        bbox_min: h.bbox_min,
        bbox_max: h.bbox_max,
    }
}

/// The bytes of a file written from `h`, the textures `ts` and the already
/// compressed frame chunks, every frame listed as a keyframe.
pub open spec fn nbl_file_bytes(h: NblHeader, ts: Seq<TextureView>, chunks: Seq<Seq<u8>>) -> Seq<
    u8,
> {
    let n = chunks.len();
    header_bytes(saved_header(h, ts, n)) + textures_bytes(ts) + frame_index_bytes(
        chunk_entries(data_start(ts, n), chunks),
    ) + u32_le(n as u32) + u32s_le(all_frames(n)) + chunks_bytes(chunks)
}

/// The frame index table takes 12 bytes per entry.
pub proof fn lemma_frame_index_len(es: Seq<(u64, u32)>)
    ensures
        frame_index_bytes(es).len() == 12 * es.len(),
{
    let enc = |e: (u64, u32)| index_entry_bytes(e);
    assert forall|e: (u64, u32)| #[trigger] enc(e).len() == 12 by {
        crate::bytes::lemma_u64_roundtrip(e.0);
        crate::bytes::lemma_u32_roundtrip(e.1);
    }
    lemma_column_len(es, enc, 12);
}

/// Byte length of a written file.
pub proof fn lemma_nbl_file_len(h: NblHeader, ts: Seq<TextureView>, chunks: Seq<Seq<u8>>)
    ensures
        nbl_file_bytes(h, ts, chunks).len() == data_start(ts, chunks.len()) + chunks_bytes(
            chunks,
        ).len(),
{
    let n = chunks.len();
    crate::header::lemma_header_roundtrip(saved_header(h, ts, n), Seq::empty());
    assert(header_bytes(saved_header(h, ts, n)) + Seq::<u8>::empty() =~= header_bytes(
        saved_header(h, ts, n),
    ));
    lemma_frame_index_len(chunk_entries(data_start(ts, n), chunks));
    lemma_u32_roundtrip(n as u32);
    lemma_u32s_le_len(all_frames(n));
}

/// Where the parts of a written file stand: the 48-byte header, then the
/// texture block, then the frame index table of 12 bytes a frame, then the
/// keyframe count and the keyframe numbers of 4 bytes each, then the
/// chunks; each chunk's index entry gives the place where it starts.
pub proof fn lemma_file_layout(h: NblHeader, ts: Seq<TextureView>, chunks: Seq<Seq<u8>>)
    ensures
        ({
            let b = nbl_file_bytes(h, ts, chunks);
            let n = chunks.len() as int;
            let t = 48 + textures_len(ts) as int;
            let q = t + 12 * n;
            &&& b.subrange(0, 48) == header_bytes(saved_header(h, ts, chunks.len()))
            &&& b.subrange(48, t) == textures_bytes(ts)
            &&& b.subrange(t, q) == frame_index_bytes(chunk_entries(data_start(ts, chunks.len()), chunks))
            &&& b.subrange(q, q + 4) == u32_le(n as u32)
            &&& b.subrange(q + 4, q + 4 + 4 * n) == u32s_le(all_frames(chunks.len()))
            &&& b.subrange(q + 4 + 4 * n, b.len() as int) == chunks_bytes(chunks)
            &&& data_start(ts, chunks.len()) == q + 4 + 4 * n
        }),
{
    let n = chunks.len();
    let hb = header_bytes(saved_header(h, ts, n));
    let tb = textures_bytes(ts);
    let ib = frame_index_bytes(chunk_entries(data_start(ts, n), chunks));
    let kb = u32_le(n as u32);
    let ab = u32s_le(all_frames(n));
    let cb = chunks_bytes(chunks);
    crate::header::lemma_header_layout(saved_header(h, ts, n));
    lemma_frame_index_len(chunk_entries(data_start(ts, n), chunks));
    lemma_u32_roundtrip(n as u32);
    lemma_u32s_le_len(all_frames(n));
    let b = nbl_file_bytes(h, ts, chunks);
    assert(b == hb + tb + ib + kb + ab + cb);
    let t = 48 + tb.len() as int;
    let q = t + ib.len() as int;
    let a = ab.len() as int;
    assert(b.subrange(0, 48) =~= hb);
    assert(b.subrange(48, t) =~= tb);
    assert(b.subrange(t, q) =~= ib);
    assert(b.subrange(q, q + 4) =~= kb);
    assert(b.subrange(q + 4, q + 4 + a) =~= ab);
    assert(b.subrange(q + 4 + a, b.len() as int) =~= cb);
}

/// Writes a complete file from `h`, the textures `ts` and the compressed frame
/// chunks: the header (with the frame and texture counts of what follows),
/// the texture block, the frame index table, a keyframe table that lists
/// every frame, and the chunks.
pub fn build_nbl_file(h: &NblHeader, ts: &Vec<TextureEntry>, chunks: &Vec<Vec<u8>>) -> (r: Vec<u8>)
    requires
        nbl_file_bytes(*h, texture_views(ts@), chunks@.map_values(|c: Vec<u8>| c@)).len()
            <= usize::MAX,
    ensures
        r@ == nbl_file_bytes(*h, texture_views(ts@), chunks@.map_values(|c: Vec<u8>| c@)),
{
    let ghost tv = texture_views(ts@);
    let ghost cs = chunks@.map_values(|c: Vec<u8>| c@);
    let ghost n = chunks@.len();
    proof {
        lemma_nbl_file_len(*h, tv, cs);
        lemma_column_prefix_len(cs, |c: Seq<u8>| c, n as int);
        assert(cs.take(n as int) =~= cs);
    }
    let tex_block = texture_block_len(ts);
    let nframes = chunks.len();
    let start = HEADER_LEN + tex_block + 12 * nframes + 4 + 4 * nframes;
    let saved = NblHeader {
        version: h.version,
        target_fps: h.target_fps,
        total_frames: nframes as u32,
        texture_count: ts.len() as u16,
        attributes: h.attributes,
        bbox_min: h.bbox_min,
        bbox_max: h.bbox_max,
    };
    let mut buf: Vec<u8> = Vec::new();
    push_header(&mut buf, &saved);
    push_textures(&mut buf, ts);
    let ghost entries = chunk_entries(start as nat, cs);
    let mut offset: usize = start;
    let mut i: usize = 0;
    while i < nframes
        invariant
            nframes == chunks@.len(),
            n == nframes,
            cs == chunks@.map_values(|c: Vec<u8>| c@),
            i <= nframes,
            offset == start + chunks_len_before(cs, i as int),
            start + chunks_bytes(cs).len() <= usize::MAX,
            entries == chunk_entries(start as nat, cs),
            buf@ == header_bytes(saved) + textures_bytes(tv) + frame_index_bytes(
                entries.take(i as int),
            ),
        decreases nframes - i,
    {
        let ghost pre = entries.take(i as int);
        proof {
            lemma_column_element(cs, |c: Seq<u8>| c, i as int);
            lemma_column_prefix_len(cs, |c: Seq<u8>| c, i + 1);
        }
        let size = chunks[i].len();
        push_u64(&mut buf, offset as u64);
        push_u32(&mut buf, size as u32);
        proof {
            lemma_column_push(pre, entries[i as int], |e: (u64, u32)| index_entry_bytes(e));
            assert(entries.take(i + 1) =~= pre.push(entries[i as int]));
        }
        offset = offset + size;
        i = i + 1;
    }
    assert(entries.take(nframes as int) =~= entries);
    push_u32(&mut buf, nframes as u32);
    let mut kf: Vec<u32> = Vec::with_capacity(nframes);
    let mut j: usize = 0;
    while j < nframes
        invariant
            j <= nframes,
            nframes <= usize::MAX,
            kf@ =~= all_frames(nframes as nat).take(j as int),
        decreases nframes - j,
    {
        kf.push(j as u32);
        j = j + 1;
    }
    assert(kf@ =~= all_frames(nframes as nat));
    push_u32s(&mut buf, &kf);
    assert(cs.take(0) =~= Seq::<Seq<u8>>::empty());
    assert(buf@ =~= buf@ + chunks_bytes(cs.take(0)));
    let mut c: usize = 0;
    while c < nframes
        invariant
            nframes == chunks@.len(),
            cs == chunks@.map_values(|c: Vec<u8>| c@),
            c <= nframes,
            buf@ == header_bytes(saved) + textures_bytes(tv) + frame_index_bytes(entries)
                + u32_le(nframes as u32) + u32s_le(all_frames(nframes as nat)) + chunks_bytes(
                cs.take(c as int),
            ),
        decreases nframes - c,
    {
        let ghost pre = cs.take(c as int);
        push_bytes(&mut buf, chunks[c].as_slice());
        proof {
            lemma_column_push(pre, cs[c as int], |c: Seq<u8>| c);
            assert(cs.take(c + 1) =~= pre.push(cs[c as int]));
        }
        c = c + 1;
    }
    assert(cs.take(nframes as int) =~= cs);
    assert(saved == saved_header(*h, tv, n));
    buf
}


/// The frame index entries of `chunks` fit their fields: every chunk is at
/// most `u32::MAX` bytes and the whole file at most `u64::MAX` bytes.
pub open spec fn chunks_fit(ts: Seq<TextureView>, chunks: Seq<Seq<u8>>) -> bool {
    &&& chunks.len() <= u32::MAX
    &&& forall|i: int| 0 <= i < chunks.len() ==> #[trigger] chunks[i].len() <= u32::MAX
    &&& data_start(ts, chunks.len()) + chunks_bytes(chunks).len() <= u64::MAX
}

/// Reading back a written frame index table gives the entries back.
pub proof fn lemma_frame_index_roundtrip(es: Seq<(u64, u32)>, b: Seq<u8>, off: int)
    requires
        0 <= off,
        off + 12 * es.len() <= b.len(),
        b.subrange(off, off + 12 * es.len()) == frame_index_bytes(es),
    ensures
        frame_index_at(b, off, es.len()) == es,
{
    let n = es.len();
    let enc = |x: (u64, u32)| index_entry_bytes(x);
    assert forall|x: (u64, u32)| #[trigger] enc(x).len() == 12 by {
        lemma_u64_roundtrip(x.0);
        lemma_u32_roundtrip(x.1);
    }
    assert forall|i: int| 0 <= i < n implies #[trigger] frame_index_at(b, off, n)[i] == es[i] by {
        crate::bytes::lemma_column_chunk(es, enc, 12, i);
        assert(12 * i + 12 <= 12 * n) by (nonlinear_arith)
            requires
                i + 1 <= n,
        ;
        let eb = index_entry_bytes(es[i]);
        assert(b.subrange(off + 12 * i, off + 12 * i + 12) =~= eb);
        lemma_u64_roundtrip(es[i].0);
        lemma_u32_roundtrip(es[i].1);
        assert(b.subrange(off + 12 * i, off + 12 * i + 8) =~= u64_le(es[i].0));
        assert(u64_le(es[i].0).subrange(0, 8) =~= u64_le(es[i].0));
        assert(eb.subrange(8, 12) =~= u32_le(es[i].1));
        assert(b.subrange(off + 12 * i + 8, off + 12 * i + 12) =~= eb.subrange(8, 12));
        assert(u32_le(es[i].1).subrange(0, 4) =~= u32_le(es[i].1));
    }
    assert(frame_index_at(b, off, n) =~= es);
}

/// The front of a written file reads back: the header with the counts of
/// what was written, the textures, one index entry per chunk and a keyframe
/// table that lists every frame.
#[verifier::rlimit(40)]
pub proof fn lemma_saved_file_parses(h: NblHeader, ts: Seq<TextureView>, chunks: Seq<Seq<u8>>)
    requires
        ts.len() <= 65535,
        paths_fit(ts),
        chunks_fit(ts, chunks),
    ensures
        container_spec(nbl_file_bytes(h, ts, chunks)) == Ok::<IndexView, NblError>(
            IndexView {
                header: saved_header(h, ts, chunks.len()),
                textures: ts,
                frame_indices: chunk_entries(data_start(ts, chunks.len()), chunks),
                keyframe_indices: all_frames(chunks.len()),
            },
        ),
{
    let n = chunks.len();
    let sh = saved_header(h, ts, n);
    let ds = data_start(ts, n);
    let es = chunk_entries(ds, chunks);
    let a = header_bytes(sh);
    let bt = textures_bytes(ts);
    let c = frame_index_bytes(es);
    let d = u32_le(n as u32);
    let e = u32s_le(all_frames(n));
    let f = chunks_bytes(chunks);
    let b = nbl_file_bytes(h, ts, chunks);
    lemma_nbl_file_len(h, ts, chunks);
    lemma_header_roundtrip(sh, bt + c + d + e + f);
    assert(b =~= a + (bt + c + d + e + f));
    lemma_textures_roundtrip(ts, a, c + d + e + f);
    assert(b =~= a + bt + (c + d + e + f));
    let p: int = (48 + textures_len(ts)) as int;
    lemma_frame_index_len(es);
    lemma_u32_roundtrip(n as u32);
    lemma_u32s_le_len(all_frames(n));
    let q: int = p + 12 * n;
    assert(b.subrange(q, q + 4) =~= d);
    assert(d.subrange(0, 4) =~= d);
    assert(u32_at(b, q) == n as u32);
    assert(b.subrange(p, q) =~= c);
    lemma_frame_index_roundtrip(es, b, p);
    assert(b.subrange(q + 4, q + 4 + 4 * n) =~= e);
    lemma_u32s_roundtrip(all_frames(n), b, q + 4);
    assert(sh.total_frames as nat == n);
    assert(sh.texture_count as nat == ts.len());
}

/// In a written file each frame index entry locates its chunk, byte for byte.
pub proof fn lemma_saved_chunks(h: NblHeader, ts: Seq<TextureView>, chunks: Seq<Seq<u8>>, i: int)
    requires
        chunks_fit(ts, chunks),
        0 <= i < chunks.len(),
    ensures
        ({
            let e = chunk_entries(data_start(ts, chunks.len()), chunks)[i];
            &&& e.0 + e.1 <= nbl_file_bytes(h, ts, chunks).len()
            &&& nbl_file_bytes(h, ts, chunks).subrange(e.0 as int, e.0 + e.1) == chunks[i]
        }),
{
    let n = chunks.len();
    let ds = data_start(ts, n);
    let es = chunk_entries(ds, chunks);
    let b = nbl_file_bytes(h, ts, chunks);
    let f = chunks_bytes(chunks);
    lemma_nbl_file_len(h, ts, chunks);
    lemma_column_element(chunks, |x: Seq<u8>| x, i);
    lemma_column_prefix_len(chunks, |x: Seq<u8>| x, i + 1);
    assert(chunks.take(n as int) =~= chunks);
    let lo: int = chunks_len_before(chunks, i) as int;
    let dsi: int = ds as int;
    assert(es[i].0 as int == dsi + lo);
    assert(es[i].1 as int == chunks[i].len());
    assert(b.subrange(dsi + lo, dsi + lo + chunks[i].len()) =~= f.subrange(
        lo,
        lo + chunks[i].len(),
    ));
}


} // verus!

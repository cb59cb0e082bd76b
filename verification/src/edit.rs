//! The decisions of the streaming editor, which rewrites a file frame by
//! frame, and the layout of the file it writes: a reserved front whose index
//! tables are filled in once every chunk is written.
use vstd::prelude::*;
use crate::bytes::{
    lemma_column_element, lemma_column_prefix_len, lemma_column_push,
    lemma_u32_roundtrip, lemma_u32s_le_len, lemma_u32s_roundtrip, push_u32, push_u32s, push_u64,
    u32_at, u32_le, u32s_le,
};
use crate::container::{
    chunk_entries, chunks_bytes, chunks_fit, chunks_len_before, container_spec, data_start,
    frame_index_bytes, index_entry_bytes, lemma_frame_index_roundtrip, saved_header, IndexView,
};
use crate::frame::NblError;
use crate::header::{
    header_bytes, lemma_header_roundtrip, lemma_textures_roundtrip, paths_fit, push_header,
    push_textures, texture_views, textures_bytes, textures_len, NblHeader,
    TextureEntry, TextureView,
};

verus! {

/// Keyframe interval used when none is chosen.
pub const DEFAULT_KEYFRAME_INTERVAL: u32 = 60;

/// Whether output frame `idx` must be a keyframe regardless of the motion in
/// it: the first frame and every `interval`-th frame are (every 60th when
/// `interval` is 0).
pub open spec fn keyframe_due_spec(idx: u32, interval: u32) -> bool {
    let every = if interval == 0 {
        60
    } else {
        interval
    };
    idx == 0 || idx % every == 0
}

/// Whether output frame `idx` must be a keyframe regardless of the motion in
/// it: the first frame and every `interval`-th frame are (every 60th when
/// `interval` is 0).
pub fn keyframe_due(idx: u32, interval: u32) -> (due: bool)
    ensures
        due == keyframe_due_spec(idx, interval),
{
    let every = if interval == 0 {
        DEFAULT_KEYFRAME_INTERVAL
    } else {
        interval
    };
    idx == 0 || idx % every == 0
}

/// The frames a trim keeps: `start` and `end` are clamped to the last frame,
/// `end` raised to `start` if below it; the result is the first kept frame
/// and how many are kept.
pub open spec fn trim_window_spec(start: u32, end: u32, total: u32) -> (u32, u32) {
    let last = if total == 0 {
        0u32
    } else {
        (total - 1) as u32
    };
    let s = if start < last {
        start
    } else {
        last
    };
    let e0 = if end < last {
        end
    } else {
        last
    };
    let e = if e0 > s {
        e0
    } else {
        s
    };
    (s, (e - s + 1) as u32)
}

/// The frames a trim keeps: `start` and `end` are clamped to the last frame,
/// `end` raised to `start` if below it; the result is the first kept frame
/// and how many are kept.
pub fn trim_window(start: u32, end: u32, total: u32) -> (r: (u32, u32))
    ensures
        r == trim_window_spec(start, end, total),
        r.1 >= 1,
        r.0 + r.1 <= if total == 0 {
            1
        } else {
            total as int
        },
{
    let last = total.saturating_sub(1);
    let s = if start < last {
        start
    } else {
        last
    };
    let e0 = if end < last {
        end
    } else {
        last
    };
    let e = if e0 > s {
        e0
    } else {
        s
    };
    (s, e - s + 1)
}

/// The keyframes that the interval asks for are the multiples of the
/// interval (of 60 when it is 0): frame `idx` is due exactly when some
/// whole number of intervals reaches it.
pub proof fn lemma_keyframe_due_multiples(idx: u32, interval: u32)
    ensures
        interval == 0 ==> (keyframe_due_spec(idx, interval) <==> exists|k: int|
            0 <= k && #[trigger] (k * 60) == idx),
        interval > 0 ==> (keyframe_due_spec(idx, interval) <==> exists|k: int|
            0 <= k && #[trigger] (k * (interval as int)) == idx),
{
    if interval == 0 {
        lemma_multiple_of(idx as int, 60);
        if idx == 0 {
            assert(0 * 60 == idx);
        }
    } else {
        lemma_multiple_of(idx as int, interval as int);
        if idx == 0 {
            assert(0 * (interval as int) == idx);
        }
    }
}

/// `x` is a non-negative whole multiple of `every` exactly when it leaves
/// no remainder.
proof fn lemma_multiple_of(x: int, every: int)
    requires
        x >= 0,
        every > 0,
    ensures
        (x % every == 0) <==> exists|k: int| 0 <= k && #[trigger] (k * every) == x,
{
    if x % every == 0 {
        let k = x / every;
        assert(k * every == x && 0 <= k) by (nonlinear_arith)
            requires
                x >= 0,
                every > 0,
                x % every == 0,
                k == x / every,
        ;
    }
    if exists|k: int| 0 <= k && #[trigger] (k * every) == x {
        let k = choose|k: int| 0 <= k && #[trigger] (k * every) == x;
        assert((k * every) % every == 0) by (nonlinear_arith)
            requires
                every > 0,
                k >= 0,
        ;
    }
}

/// A trim whose first and last frames both exist keeps exactly the frames
/// from `start` to `end`; otherwise it keeps at least one frame, and all
/// the frames it keeps exist when the file has any.
pub proof fn lemma_trim_window_keeps(start: u32, end: u32, total: u32)
    ensures
        start <= end < total ==> trim_window_spec(start, end, total) == (start, (end - start + 1) as u32),
        trim_window_spec(start, end, total).1 >= 1,
        total > 0 ==> trim_window_spec(start, end, total).0 + trim_window_spec(start, end, total).1 <= total,
{
}

/// `n` zero bytes.
pub open spec fn zeros(n: nat) -> Seq<u8> {
    Seq::new(n, |i: int| 0u8)
}

/// The front of a file the streaming editor writes for `n` frames: the
/// header with the counts of what follows, the texture block, and zeros that
/// reserve the frame index table and a keyframe table of up to `n` entries.
pub open spec fn stream_front_bytes(h: NblHeader, ts: Seq<TextureView>, n: nat) -> Seq<u8> {
    header_bytes(saved_header(h, ts, n)) + textures_bytes(ts) + zeros(12 * n + 4 + 4 * n)
}

/// The tables written over the reserved zeros once every chunk is known:
/// the frame index entries, the keyframe count and the keyframes.
pub open spec fn index_tables_bytes(es: Seq<(u64, u32)>, kfs: Seq<u32>) -> Seq<u8> {
    frame_index_bytes(es) + u32_le(kfs.len() as u32) + u32s_le(kfs)
}

/// `b` with the bytes from `at` on replaced by `p`.
pub open spec fn overwrite(b: Seq<u8>, at: int, p: Seq<u8>) -> Seq<u8> {
    b.subrange(0, at) + p + b.subrange(at + p.len(), b.len() as int)
}

/// The front of a streamed file for `n` frames (see [`stream_front_bytes`]).
pub fn stream_front(h: &NblHeader, ts: &Vec<TextureEntry>, n: u32) -> (r: Vec<u8>)
    requires
        stream_front_bytes(*h, texture_views(ts@), n as nat).len() <= usize::MAX,
    ensures
        r@ == stream_front_bytes(*h, texture_views(ts@), n as nat),
{
    let saved = NblHeader {
        version: h.version,
        target_fps: h.target_fps,
        total_frames: n,
        texture_count: ts.len() as u16,
        attributes: h.attributes,
        bbox_min: h.bbox_min,
        bbox_max: h.bbox_max,
    };
    let mut buf: Vec<u8> = Vec::new();
    push_header(&mut buf, &saved);
    push_textures(&mut buf, ts);
    let ghost front = buf@;
    let reserved: usize = 16 * (n as usize) + 4;
    let mut i: usize = 0;
    while i < reserved
        invariant
            i <= reserved,
            buf@ == front + zeros(i as nat),
        decreases reserved - i,
    {
        buf.push(0);
        i = i + 1;
        assert(buf@ =~= front + zeros(i as nat));
    }
    assert(saved == saved_header(*h, texture_views(ts@), n as nat));
    assert(zeros(reserved as nat) =~= zeros(12 * (n as nat) + 4 + 4 * (n as nat)));
    buf
}

/// The tables written over the reserved zeros (see [`index_tables_bytes`]).
pub fn index_tables(es: &Vec<(u64, u32)>, kfs: &Vec<u32>) -> (r: Vec<u8>)
    ensures
        r@ == index_tables_bytes(es@, kfs@),
{
    let mut buf: Vec<u8> = Vec::new();
    let mut i: usize = 0;
    while i < es.len()
        invariant
            i <= es@.len(),
            buf@ == frame_index_bytes(es@.take(i as int)),
        decreases es@.len() - i,
    {
        let ghost pre = es@.take(i as int);
        let (o, s) = es[i];
        push_u64(&mut buf, o);
        push_u32(&mut buf, s);
        proof {
            lemma_column_push(pre, es@[i as int], |e: (u64, u32)| index_entry_bytes(e));
            assert(es@.take(i + 1) =~= pre.push(es@[i as int]));
        }
        i = i + 1;
    }
    assert(es@.take(es@.len() as int) =~= es@);
    push_u32(&mut buf, kfs.len() as u32);
    push_u32s(&mut buf, kfs);
    buf
}

/// A streamed file reads back. The front written first, followed by the
/// chunks, with the index tables of those chunks and the keyframe list
/// written over the reserved zeros, holds the header with the counts of
/// what was written, the textures, one index entry per chunk and the
/// keyframe list; and each index entry locates its chunk, byte for byte.
#[verifier::rlimit(40)]
pub proof fn lemma_streamed_file_parses(
    h: NblHeader,
    ts: Seq<TextureView>,
    chunks: Seq<Seq<u8>>,
    kfs: Seq<u32>,
)
    requires
        ts.len() <= 65535,
        paths_fit(ts),
        chunks_fit(ts, chunks),
        kfs.len() <= chunks.len(),
    ensures
        ({
            let n = chunks.len();
            let es = chunk_entries(data_start(ts, n), chunks);
            let file = overwrite(
                stream_front_bytes(h, ts, n) + chunks_bytes(chunks),
                (48 + textures_len(ts)) as int,
                index_tables_bytes(es, kfs),
            );
            &&& container_spec(file) == Ok::<IndexView, NblError>(
                IndexView {
                    header: saved_header(h, ts, n),
                    textures: ts,
                    frame_indices: es,
                    keyframe_indices: kfs,
                },
            )
            &&& forall|i: int|
                0 <= i < n ==> file.subrange(#[trigger] es[i].0 as int, es[i].0 + es[i].1)
                    == chunks[i]
        }),
{
    let n = chunks.len();
    let k = kfs.len();
    let sh = saved_header(h, ts, n);
    let ds = data_start(ts, n);
    let es = chunk_entries(ds, chunks);
    let a = header_bytes(sh);
    let bt = textures_bytes(ts);
    let c = frame_index_bytes(es);
    let d = u32_le(k as u32);
    let e = u32s_le(kfs);
    let z = zeros((4 * (n - k)) as nat);
    let f = chunks_bytes(chunks);
    let front = stream_front_bytes(h, ts, n);
    let tables = index_tables_bytes(es, kfs);
    let at: int = (48 + textures_len(ts)) as int;
    let file = overwrite(front + f, at, tables);
    lemma_header_roundtrip(sh, Seq::empty());
    assert(a + Seq::<u8>::empty() =~= a);
    crate::container::lemma_frame_index_len(es);
    lemma_u32_roundtrip(k as u32);
    lemma_u32s_le_len(kfs);
    assert(file =~= a + bt + c + d + e + z + f);
    let b = file;
    lemma_header_roundtrip(sh, bt + c + d + e + z + f);
    assert(b =~= a + (bt + c + d + e + z + f));
    lemma_textures_roundtrip(ts, a, c + d + e + z + f);
    assert(b =~= a + bt + (c + d + e + z + f));
    let p: int = at;
    let q: int = p + 12 * n;
    assert(b.subrange(q, q + 4) =~= d);
    assert(d.subrange(0, 4) =~= d);
    assert(u32_at(b, q) == k as u32);
    assert(b.subrange(p, q) =~= c);
    lemma_frame_index_roundtrip(es, b, p);
    assert(b.subrange(q + 4, q + 4 + 4 * k) =~= e);
    lemma_u32s_roundtrip(kfs, b, q + 4);
    assert(sh.total_frames as nat == n);
    assert(sh.texture_count as nat == ts.len());
    assert forall|i: int| 0 <= i < n implies b.subrange(#[trigger] es[i].0 as int, es[i].0 + es[i].1)
        == chunks[i] by {
        lemma_column_element(chunks, |x: Seq<u8>| x, i);
        lemma_column_prefix_len(chunks, |x: Seq<u8>| x, i + 1);
        assert(chunks.take(n as int) =~= chunks);
        let lo: int = chunks_len_before(chunks, i) as int;
        let dsi: int = ds as int;
        assert(es[i].0 as int == dsi + lo);
        assert(es[i].1 as int == chunks[i].len());
        assert(b.subrange(dsi + lo, dsi + lo + chunks[i].len()) =~= f.subrange(
            lo,
            lo + chunks[i].len(),
        ));
    }
}

} // verus!

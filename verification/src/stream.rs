//! The index of a file being streamed: where each chunk went, and which
//! frames are keyframes, kept as the chunks are compressed and written one
//! after another.
use vstd::prelude::*;
use crate::bytes::{lemma_column_push, read_u32};
use crate::chunk::{compress_chunk, compressed_chunk_spec, zstd_compressed};
use crate::container::{chunk_entries, chunks_bytes, chunks_len_before};
use crate::frame::{
    chunk_spec, encode_i_frame, encode_p_frame, i_frame_bytes, lemma_i_frame_roundtrip,
    lemma_p_frame_roundtrip, p_frame_bytes, FrameView, NblError,
};
use crate::edit::{keyframe_due, keyframe_due_spec};
use crate::encode::{
    i_frame_from_particles, i_frame_of, id_map, p_frame_from_particles, p_frame_of, prior_of,
};
use crate::state::Particle;

verus! {

/// Whether a stored chunk holds a keyframe: it decompresses and decodes to
/// an I-frame.
pub open spec fn is_keyframe_chunk(c: Seq<u8>) -> bool {
    compressed_chunk_spec(c) matches Ok(FrameView::I(_))
}

/// Whether a raw chunk decodes to an I-frame: type byte 0 and a whole
/// payload.
fn raw_is_i_frame(raw: &[u8]) -> (b: bool)
    ensures
        b == (chunk_spec(raw@) matches Ok(FrameView::I(_))),
{
    if raw.len() < 5 || raw[0] != 0 {
        return false;
    }
    let n = read_u32(raw, 1);
    (raw.len() as u64) >= 5 + 24 * (n as u64)
}

/// Why adding the raw chunk `raw` to `idx` fails: `Compress` when zstd
/// reports an error for it, `TooLarge` when it compresses but the frame
/// count or the file would overflow its field.
pub open spec fn add_failed(idx: StreamIndex, raw: Seq<u8>, level: i32, e: NblError) -> bool {
    ||| e == NblError::Compress && zstd_compressed(raw, level) is None
    ||| e == NblError::TooLarge && zstd_compressed(raw, level) is Some && (idx.written@.len()
        == u32::MAX || idx.next_offset + zstd_compressed(raw, level)->0.len() > u64::MAX)
}

/// What adding the raw chunk `raw` at `level` does: on success the chunk
/// compressed by zstd is recorded after those written, decoding as `raw`
/// does; on an error nothing changes and the error is the one
/// [`add_failed`] names.
pub open spec fn chunk_written(
    before: StreamIndex,
    after: StreamIndex,
    raw: Seq<u8>,
    level: i32,
    r: Result<Vec<u8>, NblError>,
) -> bool {
    match r {
        Ok(c) => {
            &&& zstd_compressed(raw, level) == Some(c@)
            &&& compressed_chunk_spec(c@) == chunk_spec(raw)
            &&& after.written@ == before.written@.push(c@)
            &&& after.next_offset == before.next_offset + c@.len()
        },
        Err(e) => after == before && add_failed(before, raw, level, e),
    }
}

/// The frame index entries and keyframe list of a file being streamed, kept
/// as its chunks are written one after another from `data_start`.
pub struct StreamIndex {
    pub data_start: u64,
    pub next_offset: u64,
    pub entries: Vec<(u64, u32)>,
    pub keyframes: Vec<u32>,
    pub written: Ghost<Seq<Seq<u8>>>,
}

impl StreamIndex {
    /// The entries are those of the chunks written so far, laid out from
    /// `data_start`, and `next_offset` is where the next chunk goes; the
    /// keyframe list is sorted and lists exactly the frames whose chunk is
    /// an I-frame.
    pub open spec fn wf(&self) -> bool {
        &&& self.entries@ == chunk_entries(self.data_start as nat, self.written@)
        &&& self.next_offset == self.data_start + chunks_bytes(self.written@).len()
        &&& self.written@.len() <= u32::MAX
        &&& forall|i: int, j: int|
            0 <= i < j < self.keyframes@.len() ==> self.keyframes@[i] < self.keyframes@[j]
        &&& forall|i: int| 0 <= i < self.keyframes@.len() ==> self.keyframes@[i] < self.written@.len()
        &&& forall|i: int|
            0 <= i < self.written@.len() ==> (self.keyframes@.contains(i as u32)
                <==> is_keyframe_chunk(#[trigger] self.written@[i]))
    }

    /// No chunk written yet; the first goes at `data_start`.
    pub fn new(data_start: u64) -> (s: Self)
        ensures
            s.wf(),
            s.data_start == data_start,
            s.written@ == Seq::<Seq<u8>>::empty(),
            s.keyframes@ == Seq::<u32>::empty(),
    {
        let s = StreamIndex {
            data_start,
            next_offset: data_start,
            entries: Vec::new(),
            keyframes: Vec::new(),
            written: Ghost(Seq::empty()),
        };
        assert(s.entries@ =~= chunk_entries(data_start as nat, Seq::<Seq<u8>>::empty()));
        s
    }

    /// Records that `chunk` was written at `next_offset` as the next output
    /// frame.
    fn record(&mut self, chunk: &[u8], keyframe: bool)
        requires
            old(self).wf(),
            old(self).next_offset + chunk@.len() <= u64::MAX,
            old(self).written@.len() < u32::MAX,
            keyframe == is_keyframe_chunk(chunk@),
        ensures
            final(self).wf(),
            final(self).data_start == old(self).data_start,
            final(self).written@ == old(self).written@.push(chunk@),
            final(self).next_offset == old(self).next_offset + chunk@.len(),
            final(self).keyframes@ == if keyframe {
                old(self).keyframes@.push(old(self).written@.len() as u32)
            } else {
                old(self).keyframes@
            },
    {
        let ghost old_written = self.written@;
        let ghost old_kfs = self.keyframes@;
        let ghost new_written = old_written.push(chunk@);
        let frame = self.entries.len() as u32;
        assert(self.entries@.len() == old_written.len());
        let len = chunk.len();
        self.entries.push((self.next_offset, len as u32));
        self.next_offset = self.next_offset + len as u64;
        if keyframe {
            self.keyframes.push(frame);
        }
        proof {
            self.written = Ghost(new_written);
            lemma_column_push(old_written, chunk@, |c: Seq<u8>| c);
            assert(new_written.take(old_written.len() as int) =~= old_written);
            assert(new_written.take(new_written.len() as int) =~= new_written);
            assert forall|i: int| 0 <= i < old_written.len() implies chunks_len_before(new_written, i)
                == chunks_len_before(old_written, i) by {
                assert(new_written.take(i) =~= old_written.take(i));
            }
            assert(old_written.take(old_written.len() as int) =~= old_written);
            assert(self.entries@ =~= chunk_entries(self.data_start as nat, new_written));
            assert forall|i: int| 0 <= i < new_written.len() implies (self.keyframes@.contains(
                i as u32,
            ) <==> is_keyframe_chunk(#[trigger] new_written[i])) by {
                if i < old_written.len() {
                    assert(new_written[i] == old_written[i]);
                    if self.keyframes@.contains(i as u32) {
                        let j = choose|j: int|
                            0 <= j < self.keyframes@.len() && self.keyframes@[j] == i as u32;
                        if j < old_kfs.len() {
                            assert(old_kfs[j] == i as u32);
                        }
                    }
                    if old_kfs.contains(i as u32) {
                        let j = choose|j: int| 0 <= j < old_kfs.len() && old_kfs[j] == i as u32;
                        assert(self.keyframes@[j] == i as u32);
                    }
                } else {
                    if keyframe {
                        assert(self.keyframes@[old_kfs.len() as int] == i as u32);
                    } else if self.keyframes@.contains(i as u32) {
                        let j = choose|j: int|
                            0 <= j < self.keyframes@.len() && self.keyframes@[j] == i as u32;
                        assert(old_kfs[j] < old_written.len());
                    }
                }
            }
        }
    }

    /// Compresses the raw chunk of the next output frame at `level` and
    /// records it; the caller writes the returned bytes at the old
    /// `next_offset`. The frame is listed as a keyframe exactly when the raw
    /// chunk is an I-frame. Fails with `Compress` when zstd reports an
    /// error, and with `TooLarge` when the file or the frame count would
    /// overflow its field; nothing changes then.
    pub fn add_chunk(&mut self, raw: &[u8], level: i32) -> (r: Result<Vec<u8>, NblError>)
        requires
            old(self).wf(),
        ensures
            final(self).wf(),
            final(self).data_start == old(self).data_start,
            chunk_written(*old(self), *final(self), raw@, level, r),
            r is Ok ==> old(self).written@.len() < u32::MAX && final(self).keyframes@ == if chunk_spec(
                raw@,
            ) matches Ok(FrameView::I(_)) {
                old(self).keyframes@.push(old(self).written@.len() as u32)
            } else {
                old(self).keyframes@
            },
    {
        let keyframe = raw_is_i_frame(raw);
        let c = match compress_chunk(raw, level) {
            Ok(c) => c,
            Err(e) => {
                return Err(e);
            },
        };
        if self.entries.len() >= 4294967295 || c.len() as u64 > u64::MAX - self.next_offset {
            proof {
                assert(self.entries@.len() == self.written@.len());
            }
            return Err(NblError::TooLarge);
        }
        assert(self.entries@.len() == self.written@.len());
        self.record(c.as_slice(), keyframe);
        Ok(c)
    }

    /// Writes the snapshot `cur` as the next output frame: an I-frame when
    /// the keyframe interval asks for one (see `keyframe_due`) or when
    /// `overflow` says a particle moved farther than a P-frame can carry,
    /// otherwise a P-frame against the previous snapshot `prev`. The frame
    /// is compressed at `level` and recorded; it is listed as a keyframe
    /// exactly when it is written as an I-frame. On an error (see
    /// `add_chunk`) nothing changes.
    pub fn add_frame<Q: Fn(u32) -> u16, D: Fn(Option<Particle>, Particle) -> [i16; 4]>(
        &mut self,
        prev: &Vec<Particle>,
        cur: &Vec<Particle>,
        interval: u32,
        overflow: bool,
        quantize: &Q,
        float_delta: &D,
        level: i32,
    ) -> (r: Result<Vec<u8>, NblError>)
        requires
            old(self).wf(),
            cur@.len() <= u32::MAX,
            forall|s: u32| quantize.requires((s,)),
            forall|a: Option<Particle>, b: Particle| float_delta.requires((a, b)),
        ensures
            final(self).wf(),
            final(self).data_start == old(self).data_start,
            ({
                let frame = old(self).written@.len() as u32;
                let key = keyframe_due_spec(frame, interval) || overflow;
                &&& key ==> exists|sizes: Seq<u16>|
                    {
                        &&& sizes.len() == cur@.len()
                        &&& forall|i: int|
                            0 <= i < cur@.len() ==> call_ensures(
                                *quantize,
                                (cur@[i].size,),
                                #[trigger] sizes[i],
                            )
                        &&& chunk_spec(i_frame_bytes(i_frame_of(cur@, sizes))) == Ok::<
                            FrameView,
                            NblError,
                        >(FrameView::I(i_frame_of(cur@, sizes)))
                        &&& chunk_written(
                            *old(self),
                            *final(self),
                            i_frame_bytes(i_frame_of(cur@, sizes)),
                            level,
                            r,
                        )
                    }
                &&& !key ==> exists|floats: Seq<[i16; 4]>|
                    {
                        &&& floats.len() == cur@.len()
                        &&& forall|i: int|
                            0 <= i < cur@.len() ==> call_ensures(
                                *float_delta,
                                (prior_of(id_map(prev@), cur@[i]), cur@[i]),
                                #[trigger] floats[i],
                            )
                        &&& chunk_spec(p_frame_bytes(p_frame_of(id_map(prev@), cur@, floats)))
                            == Ok::<FrameView, NblError>(
                            FrameView::P(p_frame_of(id_map(prev@), cur@, floats)),
                        )
                        &&& chunk_written(
                            *old(self),
                            *final(self),
                            p_frame_bytes(p_frame_of(id_map(prev@), cur@, floats)),
                            level,
                            r,
                        )
                    }
                &&& r is Ok ==> old(self).written@.len() < u32::MAX && final(self).keyframes@
                    == if key {
                    old(self).keyframes@.push(frame)
                } else {
                    old(self).keyframes@
                }
            }),
    {
        assert(self.entries@.len() == self.written@.len());
        let frame = self.entries.len() as u32;
        let key = keyframe_due(frame, interval) || overflow;
        if key {
            let f = i_frame_from_particles(cur, quantize);
            let ghost sizes = choose|sizes: Seq<u16>|
                {
                    &&& sizes.len() == cur@.len()
                    &&& forall|i: int|
                        0 <= i < cur@.len() ==> call_ensures(*quantize, (cur@[i].size,), #[trigger] sizes[i])
                    &&& f@ == i_frame_of(cur@, sizes)
                };
            assert(f@.ids.len() == cur@.len());
            proof {
                lemma_i_frame_roundtrip(f@, Seq::empty());
                assert(i_frame_bytes(f@) + Seq::<u8>::empty() =~= i_frame_bytes(f@));
            }
            let raw = encode_i_frame(&f);
            let r = self.add_chunk(raw.as_slice(), level);
            assert(chunk_written(*old(self), *self, i_frame_bytes(i_frame_of(cur@, sizes)), level, r));
            r
        } else {
            let f = p_frame_from_particles(prev, cur, float_delta);
            let ghost floats = choose|floats: Seq<[i16; 4]>|
                {
                    &&& floats.len() == cur@.len()
                    &&& forall|i: int|
                        0 <= i < cur@.len() ==> call_ensures(
                            *float_delta,
                            (prior_of(id_map(prev@), cur@[i]), cur@[i]),
                            #[trigger] floats[i],
                        )
                    &&& f@ == p_frame_of(id_map(prev@), cur@, floats)
                };
            assert(f@.ids.len() == cur@.len());
            proof {
                lemma_p_frame_roundtrip(f@, Seq::empty());
                assert(p_frame_bytes(f@) + Seq::<u8>::empty() =~= p_frame_bytes(f@));
            }
            let raw = encode_p_frame(&f);
            let r = self.add_chunk(raw.as_slice(), level);
            assert(chunk_written(*old(self), *self, p_frame_bytes(p_frame_of(id_map(prev@), cur@, floats)), level, r));
            r
        }
    }
}

} // verus!

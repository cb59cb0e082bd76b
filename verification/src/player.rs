//! A player of `.nbl` files: the tables read from the front of a file, the
//! frame it shows, and the decisions of seeking.
use vstd::prelude::*;
use vstd::std_specs::iter::IteratorSpec;
use crate::chunk::{compressed_chunk_spec, compressed_chunks, decode_frame, frame_chunk, readable_back};
use crate::container::{container_spec, parse_container, IndexView};
use crate::frame::{FrameData, FrameView, NblError};
use crate::header::{paths_fit, texture_views, NblHeader, TextureEntry, TextureView};
use crate::container::all_frames;
use crate::frame::IFrameView;
use crate::state::{
    i_fold, keyed_by_id, p_float_deltas, p_floats_from, p_fold, p_frame_outcome, p_prior,
    Particle, ParticleSet,
};
use crate::frame::PFrameView;
use crate::encode::{id_map, index_by_id};

verus! {

broadcast use vstd::std_specs::hash::group_hash_axioms;

/// What a player holds besides the open file: the tables of the loaded file,
/// the index of the frame shown (`-1` before the first), the live particles
/// and whether playback runs.
pub struct PlayerState {
    pub header: Option<NblHeader>,
    pub textures: Vec<TextureEntry>,
    pub frame_indices: Vec<(u64, u32)>,
    pub keyframe_indices: Vec<u32>,
    pub current_frame_idx: i32,
    pub particles: ParticleSet,
    pub is_playing: bool,
}

/// What seeking to a frame requires of the player.
#[derive(Clone, Copy, Debug, PartialEq, Eq, Structural)]
pub enum SeekAction {
    /// Nothing: no file is loaded or the frame does not exist.
    Stay,
    /// Clear the particles and apply every frame from `start` to the target.
    Replay { start: u32 },
    /// Apply the target frame alone: it directly follows the frame shown.
    Step,
}

/// Number of leading keyframes that are at most `target`.
pub open spec fn keyframes_at_most(kfs: Seq<u32>, target: u32) -> nat
    decreases kfs.len(),
{
    if kfs.len() == 0 {
        0
    } else if kfs[0] > target {
        0
    } else {
        1 + keyframes_at_most(kfs.drop_first(), target)
    }
}

/// The keyframe that playback to `target` starts from: the last of the
/// leading keyframes at most `target`, or frame 0 when there is none.
pub open spec fn seek_start(kfs: Seq<u32>, target: u32) -> u32 {
    let k = keyframes_at_most(kfs, target);
    if k == 0 {
        0
    } else {
        kfs[k - 1]
    }
}

proof fn lemma_keyframes_at_most(kfs: Seq<u32>, target: u32, i: int)
    requires
        0 <= i <= kfs.len(),
        forall|j: int| 0 <= j < i ==> kfs[j] <= target,
    ensures
        keyframes_at_most(kfs, target) >= i,
        i < kfs.len() && kfs[i] > target ==> keyframes_at_most(kfs, target) == i,
    decreases i,
{
    if i > 0 {
        lemma_keyframes_at_most(kfs.drop_first(), target, i - 1);
    } else if kfs.len() > 0 && kfs[0] > target {
    }
}

proof fn lemma_seek_start_le(kfs: Seq<u32>, target: u32)
    ensures
        seek_start(kfs, target) <= target,
    decreases kfs.len(),
{
    if kfs.len() > 0 && kfs[0] <= target {
        lemma_seek_start_le(kfs.drop_first(), target);
        lemma_keyframes_at_most_len(kfs.drop_first(), target);
        let k = keyframes_at_most(kfs.drop_first(), target);
        if k > 0 {
            assert(kfs.drop_first()[k - 1] == kfs[k as int]);
        }
    }
}

proof fn lemma_keyframes_at_most_len(kfs: Seq<u32>, target: u32)
    ensures
        keyframes_at_most(kfs, target) <= kfs.len(),
    decreases kfs.len(),
{
    if kfs.len() > 0 {
        lemma_keyframes_at_most_len(kfs.drop_first(), target);
    }
}

/// What a file whose front reads as `ix` gives the player.
pub open spec fn loaded(ix: IndexView, s: PlayerState) -> bool {
    &&& s.header == Some(ix.header)
    &&& texture_views(s.textures@) == ix.textures
    &&& s.frame_indices@ == ix.frame_indices
    &&& s.keyframe_indices@ == ix.keyframe_indices
    &&& s.current_frame_idx == -1
    &&& s.particles@ == Map::<i32, Particle>::empty()
    &&& !s.is_playing
}

/// What the chunk `c` does to the particles `before`: an I-frame replaces
/// them, sizes given by `size_of`; a P-frame applies its entries, positions
/// and sizes given by `step`.
pub open spec fn chunk_applied<S: Fn(u16) -> u32, F: Fn(Option<Particle>, [i16; 4]) -> ([u32; 3], u32)>(
    before: Map<i32, Particle>,
    fv: FrameView,
    size_of: S,
    step: F,
    after: Map<i32, Particle>,
) -> bool {
    match fv {
        FrameView::I(f) => exists|sizes: Seq<u32>|
            {
                &&& sizes.len() == f.ids.len()
                &&& forall|i: int|
                    0 <= i < sizes.len() ==> call_ensures(size_of, (f.sizes[i],), #[trigger] sizes[i])
                &&& after == i_fold(f, sizes, f.ids.len())
            },
        FrameView::P(f) => exists|fs: Seq<([u32; 3], u32)>|
            {
                &&& p_floats_from(before, f, fs, step)
                &&& after == p_frame_outcome(before, f, fs)
            },
    }
}

/// `states` is a run of playback from frame `from`: `states[0]` is the
/// state before frame `from`, and each next state is one that applying the
/// next frame's chunk to the one before can give.
pub open spec fn is_playback<S: Fn(u16) -> u32, F: Fn(Option<Particle>, [i16; 4]) -> ([u32; 3], u32)>(
    frames: Seq<FrameView>,
    size_of: S,
    step: F,
    from: int,
    states: Seq<Map<i32, Particle>>,
) -> bool {
    &&& states.len() >= 1
    &&& 0 <= from
    &&& from + states.len() - 1 <= frames.len()
    &&& forall|i: int|
        0 <= i < states.len() - 1 ==> #[trigger] chunk_applied(
            states[i],
            frames[from + i],
            size_of,
            step,
            states[i + 1],
        )
}

/// Seeking by replay is sound: when frame `k` is an I-frame, every state
/// that playing on through frame `k` and beyond reaches is also reached by
/// clearing the particles and playing from frame `k`, state for state.
pub proof fn lemma_replay_from_keyframe<S: Fn(u16) -> u32, F: Fn(Option<Particle>, [i16; 4]) -> ([u32; 3], u32)>(
    frames: Seq<FrameView>,
    size_of: S,
    step: F,
    from: int,
    states: Seq<Map<i32, Particle>>,
    k: int,
)
    requires
        is_playback(frames, size_of, step, from, states),
        from <= k < from + states.len() - 1,
        frames[k] is I,
    ensures
        ({
            let replay = seq![Map::<i32, Particle>::empty()] + states.subrange(
                k - from + 1,
                states.len() as int,
            );
            &&& is_playback(frames, size_of, step, k, replay)
            &&& replay.last() == states.last()
        }),
{
    let j = k - from;
    let replay = seq![Map::<i32, Particle>::empty()] + states.subrange(j + 1, states.len() as int);
    assert forall|i: int| 0 <= i < replay.len() - 1 implies #[trigger] chunk_applied(
        replay[i],
        frames[k + i],
        size_of,
        step,
        replay[i + 1],
    ) by {
        assert(chunk_applied(states[j + i], frames[from + (j + i)], size_of, step, states[j + i + 1]));
        assert(replay[i + 1] == states[j + i + 1]);
        if i > 0 {
            assert(replay[i] == states[j + i]);
        }
    }
}

/// What frame `f` of the file `data` decodes to, its chunk located by the
/// index entries `es`: an error when the chunk lies past the end of the
/// file or does not decompress and decode.
pub open spec fn frame_view_at(data: Seq<u8>, es: Seq<(u64, u32)>, f: int) -> Result<FrameView, NblError> {
    let off = es[f].0 as int;
    let size = es[f].1 as int;
    if off + size <= data.len() {
        compressed_chunk_spec(data.subrange(off, off + size))
    } else {
        Err(NblError::Truncated)
    }
}

/// The decoded frames of the file `data`, one per index entry (a frame
/// that does not decode stands for an unspecified one).
pub open spec fn decoded_frames(data: Seq<u8>, es: Seq<(u64, u32)>) -> Seq<FrameView> {
    Seq::new(
        es.len(),
        |f: int|
            match frame_view_at(data, es, f) {
                Ok(v) => v,
                Err(_) => vstd::pervasive::arbitrary(),
            },
    )
}

/// What playing frames `from..=to` of `data` from the particles `before`
/// gives: on success every one of those frames decodes, and the particles
/// after are a state that applying them in turn can give; on an error, one
/// of those frames fails to decode with it.
pub open spec fn played_range<S: Fn(u16) -> u32, F: Fn(Option<Particle>, [i16; 4]) -> ([u32; 3], u32)>(
    data: Seq<u8>,
    es: Seq<(u64, u32)>,
    size_of: S,
    step: F,
    from: int,
    to: int,
    before: Map<i32, Particle>,
    after: Map<i32, Particle>,
    r: Result<(), NblError>,
) -> bool {
    match r {
        Ok(_) => {
            &&& forall|f: int| from <= f <= to ==> #[trigger] frame_view_at(data, es, f) is Ok
            &&& exists|states: Seq<Map<i32, Particle>>|
                {
                    &&& #[trigger] is_playback(decoded_frames(data, es), size_of, step, from, states)
                    &&& states.len() == to - from + 2
                    &&& states[0] == before
                    &&& states.last() == after
                }
        },
        Err(e) => exists|f: int| from <= f <= to && #[trigger] frame_view_at(data, es, f) == Err::<FrameView, NblError>(e),
    }
}

/// What seeking to `target` does (see [`PlayerState::seek_action`]): nothing
/// when no file is loaded or the frame does not exist; otherwise the
/// frames from the replay start (from no particles) or the target alone
/// (from the particles shown) are played, and on success the target is the
/// frame shown. On an error the frame shown does not change.
pub open spec fn seek_outcome<S: Fn(u16) -> u32, F: Fn(Option<Particle>, [i16; 4]) -> ([u32; 3], u32)>(
    before: PlayerState,
    after: PlayerState,
    data: Seq<u8>,
    target: u32,
    size_of: S,
    step: F,
    r: Result<(), NblError>,
) -> bool {
    let unchanged = r is Ok && after.current_frame_idx == before.current_frame_idx
        && after.particles@ == before.particles@;
    match before.header {
        None => unchanged,
        Some(h) => if target >= h.total_frames {
            unchanged
        } else {
            let start = seek_start(before.keyframe_indices@, target);
            let replay = target as i32 != before.current_frame_idx + 1 || target == start;
            let from: int = if replay {
                start as int
            } else {
                target as int
            };
            let first = if replay {
                Map::<i32, Particle>::empty()
            } else {
                before.particles@
            };
            &&& played_range(
                data,
                before.frame_indices@,
                size_of,
                step,
                from,
                target as int,
                first,
                after.particles@,
                r,
            )
            &&& after.current_frame_idx == if r is Ok {
                target as i32
            } else {
                before.current_frame_idx
            }
        },
    }
}

/// Saving, loading and seeking give the saved frames back: once the tables
/// of a file that `encode_nbl_file` wrote (every count and size fitting
/// its field) are loaded, seeking to any saved frame, from whatever frame is
/// shown, succeeds, shows that frame and leaves exactly its particles, their
/// sizes as `size_of` gives them.
pub proof fn lemma_saved_frames_play_back<S: Fn(u16) -> u32, F: Fn(Option<Particle>, [i16; 4]) -> ([u32; 3], u32)>(
    h: NblHeader,
    ts: Seq<TextureView>,
    frames: Seq<IFrameView>,
    level: i32,
    bytes: Seq<u8>,
    before: PlayerState,
    after: PlayerState,
    target: u32,
    size_of: S,
    step: F,
    r: Result<(), NblError>,
)
    requires
        readable_back(h, ts, frames, level, bytes),
        ts.len() <= 65535,
        paths_fit(ts),
        frames.len() <= u32::MAX,
        forall|i: int|
            0 <= i < frames.len() ==> #[trigger] compressed_chunks(frames, level)[i].len()
                <= u32::MAX,
        container_spec(bytes) matches Ok(ix) && before.header == Some(ix.header)
            && before.frame_indices@ == ix.frame_indices && before.keyframe_indices@
            == ix.keyframe_indices,
        target < frames.len(),
        seek_outcome(before, after, bytes, target, size_of, step, r),
    ensures
        r is Ok,
        after.current_frame_idx == target as i32,
        exists|sizes: Seq<u32>|
            {
                &&& sizes.len() == frames[target as int].ids.len()
                &&& forall|i: int|
                    0 <= i < sizes.len() ==> call_ensures(
                        size_of,
                        (frames[target as int].sizes[i],),
                        #[trigger] sizes[i],
                    )
                &&& after.particles@ == i_fold(
                    frames[target as int],
                    sizes,
                    frames[target as int].ids.len(),
                )
            },
{
    let n = frames.len();
    let kfs = before.keyframe_indices@;
    let es = before.frame_indices@;
    let t = target as int;
    assert(kfs == all_frames(n));
    assert forall|j: int| 0 <= j < t + 1 implies kfs[j] <= target by {}
    lemma_keyframes_at_most(kfs, target, t + 1);
    lemma_keyframes_at_most_len(kfs, target);
    assert(seek_start(kfs, target) == target);
    assert(frame_view_at(bytes, es, t) == Ok::<FrameView, NblError>(FrameView::I(frames[t])));
    let frames_d = decoded_frames(bytes, es);
    assert(frames_d[t] == FrameView::I(frames[t]));
    match r {
        Ok(_) => {
            let states = choose|states: Seq<Map<i32, Particle>>|
                {
                    &&& #[trigger] is_playback(decoded_frames(bytes, es), size_of, step, t, states)
                    &&& states.len() == t - t + 2
                    &&& states[0] == Map::<i32, Particle>::empty()
                    &&& states.last() == after.particles@
                };
            assert(chunk_applied(states[0], frames_d[t + 0], size_of, step, states[1]));
        },
        Err(e) => {
            let f = choose|f: int| t <= f <= t && #[trigger] frame_view_at(bytes, es, f) == Err::<FrameView, NblError>(e);
            assert(f == t);
        },
    }
}

/// The float steps give one result for each input.
pub open spec fn deterministic<S: Fn(u16) -> u32, F: Fn(Option<Particle>, [i16; 4]) -> ([u32; 3], u32)>(
    size_of: S,
    step: F,
) -> bool {
    &&& forall|a: u16, r1: u32, r2: u32|
        #[trigger] call_ensures(size_of, (a,), r1) && #[trigger] call_ensures(size_of, (a,), r2)
            ==> r1 == r2
    &&& forall|p: Option<Particle>, d: [i16; 4], r1: ([u32; 3], u32), r2: ([u32; 3], u32)|
        #[trigger] call_ensures(step, (p, d), r1) && #[trigger] call_ensures(step, (p, d), r2)
            ==> r1 == r2
}

proof fn lemma_p_fold_agree(
    m: Map<i32, Particle>,
    f: PFrameView,
    fs1: Seq<([u32; 3], u32)>,
    fs2: Seq<([u32; 3], u32)>,
    k: nat,
)
    requires
        forall|j: int| 0 <= j < k ==> fs1[j] == fs2[j],
    ensures
        p_fold(m, f, fs1, k) == p_fold(m, f, fs2, k),
    decreases k,
{
    if k > 0 {
        lemma_p_fold_agree(m, f, fs1, fs2, (k - 1) as nat);
        assert(fs1[k - 1] == fs2[k - 1]);
    }
}

#[verifier::rlimit(40)]
proof fn lemma_p_floats_agree<F: Fn(Option<Particle>, [i16; 4]) -> ([u32; 3], u32)>(
    m: Map<i32, Particle>,
    f: PFrameView,
    fs1: Seq<([u32; 3], u32)>,
    fs2: Seq<([u32; 3], u32)>,
    step: F,
    k: nat,
)
    requires
        forall|p: Option<Particle>, d: [i16; 4], r1: ([u32; 3], u32), r2: ([u32; 3], u32)|
            #[trigger] call_ensures(step, (p, d), r1) && #[trigger] call_ensures(step, (p, d), r2)
                ==> r1 == r2,
        p_floats_from(m, f, fs1, step),
        p_floats_from(m, f, fs2, step),
        k <= fs1.len(),
    ensures
        forall|j: int| 0 <= j < k ==> fs1[j] == fs2[j],
    decreases k,
{
    if k > 0 {
        let i = k - 1;
        lemma_p_floats_agree(m, f, fs1, fs2, step, i as nat);
        lemma_p_fold_agree(m, f, fs1, fs2, i as nat);
        assert(p_prior(m, f, fs1, i) == p_prior(m, f, fs2, i));
        assert(call_ensures(step, (p_prior(m, f, fs1, i), p_float_deltas(f, i)), fs1[i]));
        assert(call_ensures(step, (p_prior(m, f, fs2, i), p_float_deltas(f, i)), fs2[i]));
    }
}

/// With deterministic float steps, applying a chunk has one outcome.
proof fn lemma_chunk_applied_unique<S: Fn(u16) -> u32, F: Fn(Option<Particle>, [i16; 4]) -> ([u32; 3], u32)>(
    before: Map<i32, Particle>,
    fv: FrameView,
    size_of: S,
    step: F,
    a1: Map<i32, Particle>,
    a2: Map<i32, Particle>,
)
    requires
        deterministic(size_of, step),
        chunk_applied(before, fv, size_of, step, a1),
        chunk_applied(before, fv, size_of, step, a2),
    ensures
        a1 == a2,
{
    match fv {
        FrameView::I(f) => {
            let s1 = choose|sizes: Seq<u32>|
                {
                    &&& sizes.len() == f.ids.len()
                    &&& forall|i: int|
                        0 <= i < sizes.len() ==> call_ensures(size_of, (f.sizes[i],), #[trigger] sizes[i])
                    &&& a1 == i_fold(f, sizes, f.ids.len())
                };
            let s2 = choose|sizes: Seq<u32>|
                {
                    &&& sizes.len() == f.ids.len()
                    &&& forall|i: int|
                        0 <= i < sizes.len() ==> call_ensures(size_of, (f.sizes[i],), #[trigger] sizes[i])
                    &&& a2 == i_fold(f, sizes, f.ids.len())
                };
            assert forall|i: int| 0 <= i < s1.len() implies s1[i] == s2[i] by {
                assert(call_ensures(size_of, (f.sizes[i],), s1[i]));
                assert(call_ensures(size_of, (f.sizes[i],), s2[i]));
            }
            assert(s1 =~= s2);
        },
        FrameView::P(f) => {
            let fs1 = choose|fs: Seq<([u32; 3], u32)>|
                {
                    &&& p_floats_from(before, f, fs, step)
                    &&& a1 == p_frame_outcome(before, f, fs)
                };
            let fs2 = choose|fs: Seq<([u32; 3], u32)>|
                {
                    &&& p_floats_from(before, f, fs, step)
                    &&& a2 == p_frame_outcome(before, f, fs)
                };
            lemma_p_floats_agree(before, f, fs1, fs2, step, fs1.len());
            assert(fs1 =~= fs2);
        },
    }
}

/// With deterministic float steps, two runs of playback of the same
/// length from the same frame and state end in the same state.
proof fn lemma_playback_unique<S: Fn(u16) -> u32, F: Fn(Option<Particle>, [i16; 4]) -> ([u32; 3], u32)>(
    frames: Seq<FrameView>,
    size_of: S,
    step: F,
    from: int,
    r1: Seq<Map<i32, Particle>>,
    r2: Seq<Map<i32, Particle>>,
    k: int,
)
    requires
        deterministic(size_of, step),
        is_playback(frames, size_of, step, from, r1),
        is_playback(frames, size_of, step, from, r2),
        r1.len() == r2.len(),
        r1[0] == r2[0],
        0 <= k < r1.len(),
    ensures
        r1[k] == r2[k],
    decreases k,
{
    if k > 0 {
        lemma_playback_unique(frames, size_of, step, from, r1, r2, k - 1);
        assert(chunk_applied(r1[k - 1], frames[from + (k - 1)], size_of, step, r1[k - 1 + 1]));
        assert(chunk_applied(r2[k - 1], frames[from + (k - 1)], size_of, step, r2[k - 1 + 1]));
        lemma_chunk_applied_unique(r1[k - 1], frames[from + (k - 1)], size_of, step, r1[k], r2[k]);
    }
}

/// Seeking gives what playing through gives. When the float steps are
/// deterministic and the frame seeking replays from is an I-frame, a
/// successful seek to `target` leaves the particles that playing frames
/// `0..=target` in turn from no particles leaves, provided that, when the
/// seek steps one frame forward instead, the particles shown are those of
/// playing through the frame shown.
pub proof fn lemma_seek_plays_through<S: Fn(u16) -> u32, F: Fn(Option<Particle>, [i16; 4]) -> ([u32; 3], u32)>(
    before: PlayerState,
    after: PlayerState,
    data: Seq<u8>,
    target: u32,
    size_of: S,
    step: F,
    states: Seq<Map<i32, Particle>>,
)
    requires
        deterministic(size_of, step),
        seek_outcome(before, after, data, target, size_of, step, Ok(())),
        before.header matches Some(h) && target < h.total_frames,
        is_playback(decoded_frames(data, before.frame_indices@), size_of, step, 0, states),
        states.len() == target + 2,
        states[0] == Map::<i32, Particle>::empty(),
        decoded_frames(data, before.frame_indices@)[seek_start(before.keyframe_indices@, target) as int] is I,
        target as i32 == before.current_frame_idx + 1 && target != seek_start(
            before.keyframe_indices@,
            target,
        ) ==> before.particles@ == states[target as int],
    ensures
        after.particles@ == states.last(),
{
    let frames = decoded_frames(data, before.frame_indices@);
    let start = seek_start(before.keyframe_indices@, target);
    let replay = target as i32 != before.current_frame_idx + 1 || target == start;
    let t = target as int;
    let from: int = if replay {
        start as int
    } else {
        t
    };
    let first = if replay {
        Map::<i32, Particle>::empty()
    } else {
        before.particles@
    };
    let run = choose|run: Seq<Map<i32, Particle>>|
        {
            &&& #[trigger] is_playback(frames, size_of, step, from, run)
            &&& run.len() == t - from + 2
            &&& run[0] == first
            &&& run.last() == after.particles@
        };
    if replay {
        lemma_seek_start_le(before.keyframe_indices@, target);
        lemma_replay_from_keyframe(frames, size_of, step, 0, states, start as int);
        let other = seq![Map::<i32, Particle>::empty()] + states.subrange(
            start as int + 1,
            states.len() as int,
        );
        lemma_playback_unique(frames, size_of, step, from, run, other, run.len() - 1);
    } else {
        assert(chunk_applied(states[t], frames[0 + t], size_of, step, states[t + 1]));
        assert(chunk_applied(run[0], frames[from + 0], size_of, step, run[1]));
        lemma_chunk_applied_unique(states[t], frames[t], size_of, step, states[t + 1], run[1]);
    }
}

/// Sorts particles by id (insertion sort): the result holds the same
/// particles, in nondecreasing order of id.
fn sort_by_id(v: &mut Vec<Particle>)
    ensures
        final(v)@.to_multiset() == old(v)@.to_multiset(),
        forall|i: int, j: int| 0 <= i < j < final(v)@.len() ==> final(v)@[i].id <= final(v)@[j].id,
{
    let mut r: Vec<Particle> = Vec::new();
    let mut k: usize = 0;
    assert(r@ =~= v@.take(0));
    while k < v.len()
        invariant
            k <= v@.len(),
            r@.to_multiset() == v@.take(k as int).to_multiset(),
            forall|i: int, j: int| 0 <= i < j < r@.len() ==> r@[i].id <= r@[j].id,
        decreases v@.len() - k,
    {
        let x = v[k];
        let mut p: usize = 0;
        while p < r.len() && r[p].id <= x.id
            invariant
                p <= r@.len(),
                forall|j: int| 0 <= j < p ==> r@[j].id <= x.id,
            decreases r@.len() - p,
        {
            p = p + 1;
        }
        let ghost before = r@;
        r.insert(p, x);
        proof {
            assert(r@ == before.insert(p as int, x));
            assert(v@.take(k + 1) =~= v@.take(k as int).push(x));
            vstd::seq_lib::to_multiset_insert(before, p as int, x);
            vstd::seq_lib::to_multiset_build(v@.take(k as int), x);
            assert forall|i: int, j: int| 0 <= i < j < r@.len() implies r@[i].id <= r@[j].id by {
                if j < p {
                    assert(r@[i] == before[i] && r@[j] == before[j]);
                } else if j == p {
                    assert(r@[i] == before[i]);
                } else if i < p {
                    assert(r@[i] == before[i] && r@[j] == before[j - 1]);
                    if p < before.len() {
                        assert(before[p as int].id > x.id);
                        assert(before[i].id <= x.id);
                        assert(before[p as int].id <= before[j - 1].id);
                    }
                } else if i == p {
                    assert(r@[j] == before[j - 1]);
                    assert(before[p as int].id > x.id);
                    assert(before[p as int].id <= before[j - 1].id || j - 1 == p);
                } else {
                    assert(r@[i] == before[i - 1] && r@[j] == before[j - 1]);
                }
            }
        }
        k = k + 1;
    }
    assert(v@.take(v@.len() as int) =~= v@);
    *v = r;
}

impl PlayerState {
    /// A player with no file loaded.
    pub fn new() -> (s: Self)
        ensures
            s.header is None,
            s.textures@.len() == 0,
            s.frame_indices@.len() == 0,
            s.keyframe_indices@.len() == 0,
            s.current_frame_idx == -1,
            s.particles@ == Map::<i32, Particle>::empty(),
            s.particles.wf(),
            !s.is_playing,
    {
        PlayerState {
            header: None,
            textures: Vec::new(),
            frame_indices: Vec::new(),
            keyframe_indices: Vec::new(),
            current_frame_idx: -1,
            particles: ParticleSet::new(),
            is_playing: false,
        }
    }

    /// Loads the tables stored at the front of a file (`data` holds at least
    /// the header, texture block and both index tables), clears the
    /// particles, stops playback and rewinds to before the first frame. On an
    /// error nothing changes.
    pub fn load_index(&mut self, data: &[u8]) -> (r: Result<(), NblError>)
        requires
            old(self).particles.wf(),
        ensures
            final(self).particles.wf(),
            match container_spec(data@) {
                Ok(ix) => r is Ok && loaded(ix, *final(self)),
                Err(e) => r == Err::<(), NblError>(e) && *final(self) == *old(self),
            },
    {
        match parse_container(data) {
            Err(e) => Err(e),
            Ok(ix) => {
                self.header = Some(ix.header);
                self.textures = ix.textures;
                self.frame_indices = ix.frame_indices;
                self.keyframe_indices = ix.keyframe_indices;
                self.current_frame_idx = -1;
                self.particles.clear();
                self.is_playing = false;
                Ok(())
            },
        }
    }

    /// What seeking to `target` requires: nothing when no file is loaded or
    /// `target` is past the last frame; otherwise a replay from the last
    /// keyframe at most `target` (among the leading keyframes at most
    /// `target`), unless `target` directly follows the frame shown and is not
    /// that keyframe, which takes one step.
    pub fn seek_action(&self, target: u32) -> (a: SeekAction)
        requires
            self.current_frame_idx < i32::MAX,
        ensures
            a == match self.header {
                None => SeekAction::Stay,
                Some(h) => if target >= h.total_frames {
                    SeekAction::Stay
                } else if target as i32 != self.current_frame_idx + 1 || target == seek_start(
                    self.keyframe_indices@,
                    target,
                ) {
                    SeekAction::Replay { start: seek_start(self.keyframe_indices@, target) }
                } else {
                    SeekAction::Step
                },
            },
    {
        let total = match self.header {
            None => {
                return SeekAction::Stay;
            },
            Some(h) => h.total_frames,
        };
        if target >= total {
            return SeekAction::Stay;
        }
        let mut start: u32 = 0;
        let mut i: usize = 0;
        let len = self.keyframe_indices.len();
        while i < len && self.keyframe_indices[i] <= target
            invariant
                len == self.keyframe_indices@.len(),
                i <= len,
                forall|j: int| 0 <= j < i ==> self.keyframe_indices@[j] <= target,
                start == if i == 0 {
                    0u32
                } else {
                    self.keyframe_indices@[i - 1]
                },
            decreases len - i,
        {
            start = self.keyframe_indices[i];
            i = i + 1;
        }
        proof {
            lemma_keyframes_at_most(self.keyframe_indices@, target, i as int);
            lemma_keyframes_at_most_len(self.keyframe_indices@, target);
        }
        assert(start == seek_start(self.keyframe_indices@, target));
        if target as i32 != self.current_frame_idx + 1 || target == start {
            SeekAction::Replay { start }
        } else {
            SeekAction::Step
        }
    }

    /// Decompresses and decodes the frame chunk `compressed` and applies it
    /// to the particles (see [`ParticleSet::apply_i_frame`] and
    /// [`ParticleSet::apply_p_frame`]). On an error the particles do not
    /// change. Nothing else changes.
    pub fn apply_chunk<S: Fn(u16) -> u32, F: Fn(Option<Particle>, [i16; 4]) -> ([u32; 3], u32)>(
        &mut self,
        compressed: &[u8],
        size_of: &S,
        step: &F,
    ) -> (r: Result<(), NblError>)
        requires
            old(self).particles.wf(),
            forall|s: u16| size_of.requires((s,)),
            forall|p: Option<Particle>, d: [i16; 4]| step.requires((p, d)),
        ensures
            final(self).particles.wf(),
            final(self).header == old(self).header,
            final(self).textures@ == old(self).textures@,
            final(self).frame_indices@ == old(self).frame_indices@,
            final(self).keyframe_indices@ == old(self).keyframe_indices@,
            final(self).current_frame_idx == old(self).current_frame_idx,
            final(self).is_playing == old(self).is_playing,
            match compressed_chunk_spec(compressed@) {
                Err(e) => r == Err::<(), NblError>(e) && final(self).particles@ == old(
                    self,
                ).particles@,
                Ok(fv) => r is Ok && chunk_applied(
                    old(self).particles@,
                    fv,
                    *size_of,
                    *step,
                    final(self).particles@,
                ),
            },
    {
        match decode_frame(compressed) {
            Err(e) => Err(e),
            Ok(FrameData::I(f)) => {
                proof {
                    crate::chunk::lemma_chunk_wf_compressed(compressed@);
                }
                self.particles.apply_i_frame(&f, size_of);
                assert(chunk_applied(old(self).particles@, FrameView::I(f@), *size_of, *step, self.particles@)) by {
                    let sizes = choose|sizes: Seq<u32>|
                        {
                            &&& sizes.len() == f@.ids.len()
                            &&& forall|i: int|
                                0 <= i < sizes.len() ==> call_ensures(
                                    *size_of,
                                    (f@.sizes[i],),
                                    #[trigger] sizes[i],
                                )
                            &&& self.particles@ == i_fold(f@, sizes, f@.ids.len())
                        };
                }
                Ok(())
            },
            Ok(FrameData::P(f)) => {
                proof {
                    crate::chunk::lemma_chunk_wf_compressed(compressed@);
                }
                self.particles.apply_p_frame(&f, step);
                assert(chunk_applied(old(self).particles@, FrameView::P(f@), *size_of, *step, self.particles@)) by {
                    let fs = choose|fs: Seq<([u32; 3], u32)>|
                        {
                            &&& p_floats_from(old(self).particles@, f@, fs, *step)
                            &&& self.particles@ == p_frame_outcome(old(self).particles@, f@, fs)
                        };
                }
                Ok(())
            },
        }
    }

    /// Plays frames `from..=to` of `data` in turn on the particles.
    fn play_range<S: Fn(u16) -> u32, F: Fn(Option<Particle>, [i16; 4]) -> ([u32; 3], u32)>(
        &mut self,
        data: &[u8],
        from: u32,
        to: u32,
        size_of: &S,
        step: &F,
    ) -> (r: Result<(), NblError>)
        requires
            old(self).particles.wf(),
            from <= to,
            (to as int) < old(self).frame_indices@.len(),
            forall|s: u16| size_of.requires((s,)),
            forall|p: Option<Particle>, d: [i16; 4]| step.requires((p, d)),
        ensures
            final(self).particles.wf(),
            final(self).header == old(self).header,
            final(self).textures@ == old(self).textures@,
            final(self).frame_indices@ == old(self).frame_indices@,
            final(self).keyframe_indices@ == old(self).keyframe_indices@,
            final(self).current_frame_idx == old(self).current_frame_idx,
            final(self).is_playing == old(self).is_playing,
            played_range(
                data@,
                old(self).frame_indices@,
                *size_of,
                *step,
                from as int,
                to as int,
                old(self).particles@,
                final(self).particles@,
                r,
            ),
    {
        let ghost es = self.frame_indices@;
        let ghost frames = decoded_frames(data@, es);
        let ghost mut states: Seq<Map<i32, Particle>> = seq![self.particles@];
        let mut f: u32 = from;
        while f <= to
            invariant
                from <= f <= to + 1,
                (to as int) < es.len(),
                es == self.frame_indices@,
                es == old(self).frame_indices@,
                frames == decoded_frames(data@, es),
                self.particles.wf(),
                self.header == old(self).header,
                self.textures@ == old(self).textures@,
                self.keyframe_indices@ == old(self).keyframe_indices@,
                self.current_frame_idx == old(self).current_frame_idx,
                self.is_playing == old(self).is_playing,
                forall|s: u16| size_of.requires((s,)),
                forall|p: Option<Particle>, d: [i16; 4]| step.requires((p, d)),
                forall|g: int| from <= g < f ==> #[trigger] frame_view_at(data@, es, g) is Ok,
                is_playback(frames, *size_of, *step, from as int, states),
                states.len() == f - from + 1,
                states[0] == old(self).particles@,
                states.last() == self.particles@,
            decreases to + 1 - f,
        {
            let (off, size) = self.frame_location(f);
            let chunk = match frame_chunk(data, off, size) {
                Ok(c) => c,
                Err(e) => {
                    assert(frame_view_at(data@, es, f as int) == Err::<FrameView, NblError>(e));
                    return Err(e);
                },
            };
            assert(chunk@ == data@.subrange(off as int, off + size));
            let res = self.apply_chunk(chunk.as_slice(), size_of, step);
            if let Err(e) = res {
                assert(frame_view_at(data@, es, f as int) == Err::<FrameView, NblError>(e));
                assert(self.frame_indices@ == es);
                return Err(e);
            }
            proof {
                assert(frame_view_at(data@, es, f as int) is Ok);
                assert(frames[f as int] == frame_view_at(data@, es, f as int)->Ok_0);
                let old_states = states;
                states = states.push(self.particles@);
                assert forall|i: int| 0 <= i < states.len() - 1 implies #[trigger] chunk_applied(
                    states[i],
                    frames[from + i],
                    *size_of,
                    *step,
                    states[i + 1],
                ) by {
                    if i < old_states.len() - 1 {
                        assert(chunk_applied(old_states[i], frames[from + i], *size_of, *step, old_states[i + 1]));
                    }
                }
            }
            if f == to {
                assert forall|g: int| from <= g <= to implies #[trigger] frame_view_at(data@, es, g) is Ok by {
                    if g < f {
                    }
                }
                assert(is_playback(decoded_frames(data@, old(self).frame_indices@), *size_of, *step, from as int, states));
                assert(states.len() == to - from + 2);
                return Ok(());
            }
            f = f + 1;
        }
        Ok(())
    }

    /// Shows frame `target` of the file `data` (loaded by `load_index`):
    /// replays from the keyframe seeking starts from, or steps one frame
    /// forward (see [`PlayerState::seek_action`] and [`seek_outcome`]).
    pub fn seek_to<S: Fn(u16) -> u32, F: Fn(Option<Particle>, [i16; 4]) -> ([u32; 3], u32)>(
        &mut self,
        data: &[u8],
        target: u32,
        size_of: &S,
        step: &F,
    ) -> (r: Result<(), NblError>)
        requires
            old(self).particles.wf(),
            old(self).current_frame_idx < i32::MAX,
            old(self).header matches Some(h) ==> h.total_frames <= old(self).frame_indices@.len(),
            forall|s: u16| size_of.requires((s,)),
            forall|p: Option<Particle>, d: [i16; 4]| step.requires((p, d)),
        ensures
            final(self).particles.wf(),
            final(self).header == old(self).header,
            final(self).textures@ == old(self).textures@,
            final(self).frame_indices@ == old(self).frame_indices@,
            final(self).keyframe_indices@ == old(self).keyframe_indices@,
            final(self).is_playing == old(self).is_playing,
            seek_outcome(*old(self), *final(self), data@, target, *size_of, *step, r),
    {
        match self.seek_action(target) {
            SeekAction::Stay => Ok(()),
            SeekAction::Replay { start } => {
                proof {
                    lemma_seek_start_le(self.keyframe_indices@, target);
                }
                self.particles.clear();
                let r = self.play_range(data, start, target, size_of, step);
                if r.is_ok() {
                    self.current_frame_idx = target as i32;
                }
                r
            },
            SeekAction::Step => {
                let r = self.play_range(data, target, target, size_of, step);
                if r.is_ok() {
                    self.current_frame_idx = target as i32;
                }
                r
            },
        }
    }

    /// Loads the file `data` and shows its first frame, as opening a file
    /// does: the tables are read (see [`PlayerState::load_index`]; on an
    /// error nothing changes), then a file with frames seeks to frame 0.
    pub fn load<S: Fn(u16) -> u32, F: Fn(Option<Particle>, [i16; 4]) -> ([u32; 3], u32)>(
        &mut self,
        data: &[u8],
        size_of: &S,
        step: &F,
    ) -> (r: Result<(), NblError>)
        requires
            old(self).particles.wf(),
            forall|s: u16| size_of.requires((s,)),
            forall|p: Option<Particle>, d: [i16; 4]| step.requires((p, d)),
        ensures
            final(self).particles.wf(),
            match container_spec(data@) {
                Err(e) => r == Err::<(), NblError>(e) && *final(self) == *old(self),
                Ok(ix) => exists|mid: PlayerState|
                    {
                        &&& #[trigger] loaded(ix, mid)
                        &&& final(self).header == mid.header
                        &&& final(self).textures@ == mid.textures@
                        &&& final(self).frame_indices@ == mid.frame_indices@
                        &&& final(self).keyframe_indices@ == mid.keyframe_indices@
                        &&& !final(self).is_playing
                        &&& if ix.header.total_frames == 0 {
                            r is Ok && final(self).current_frame_idx == -1 && final(self).particles@
                                == Map::<i32, Particle>::empty()
                        } else {
                            seek_outcome(mid, *final(self), data@, 0, *size_of, *step, r)
                        }
                    },
            },
    {
        match self.load_index(data) {
            Err(e) => Err(e),
            Ok(()) => {
                let ghost mid = *self;
                let total = match self.header {
                    Some(h) => h.total_frames,
                    None => 0,
                };
                if total == 0 {
                    Ok(())
                } else {
                    self.seek_to(data, 0, size_of, step)
                }
            },
        }
    }

    /// Byte offset and size of the compressed chunk of frame `idx`.
    pub fn frame_location(&self, idx: u32) -> (r: (u64, u32))
        requires
            idx < self.frame_indices@.len(),
        ensures
            r == self.frame_indices@[idx as int],
    {
        self.frame_indices[idx as usize]
    }

    /// The live particles, in increasing order of id.
    pub fn snapshot(&self) -> (r: Vec<Particle>)
        requires
            self.particles.wf(),
        ensures
            r@.len() == self.particles@.len(),
            forall|i: int|
                0 <= i < r@.len() ==> self.particles@.contains_key(#[trigger] r@[i].id)
                    && self.particles@[r@[i].id] == r@[i],
            forall|i: int, j: int| 0 <= i < j < r@.len() ==> r@[i].id < r@[j].id,
    {
        let m = &self.particles.particles;
        let ghost keys = vstd::std_specs::hash::spec_keys_iter(m).remaining().unref();
        proof {
            vstd::std_specs::hash::axiom_spec_keys_iter(m);
        }
        let mut v: Vec<Particle> = Vec::with_capacity(m.len());
        for k in it: m.keys()
            invariant
                it.seq().unref() == keys,
                keys.to_set() == m@.dom(),
                keys.no_duplicates(),
                keys.len() == m@.dom().len(),
                keyed_by_id(m@),
                v@.len() == it.index(),
                forall|i: int|
                    0 <= i < v@.len() ==> v@[i].id == keys[i] && m@.contains_key(keys[i])
                        && m@[keys[i]] == v@[i],
        {
            proof {
                assert(keys[it.index()] == *k);
                assert(keys.to_set().contains(*k));
            }
            match m.get(k) {
                Some(p) => {
                    v.push(*p);
                },
                None => {
                    assert(false);
                },
            }
        }
        let ghost unsorted = v@;
        proof {
            assert(unsorted.no_duplicates()) by {
                assert forall|i: int, j: int|
                    0 <= i < unsorted.len() && 0 <= j < unsorted.len() && i != j implies unsorted[i]
                    != unsorted[j] by {
                    assert(keys[i] != keys[j]);
                }
            }
            unsorted.lemma_multiset_has_no_duplicates();
        }
        sort_by_id(&mut v);
        proof {
            broadcast use vstd::seq_lib::to_multiset_contains;

            v@.lemma_multiset_has_no_duplicates_conv();
            assert forall|i: int|
                0 <= i < v@.len() implies self.particles@.contains_key(#[trigger] v@[i].id)
                && self.particles@[v@[i].id] == v@[i] by {
                assert(v@.to_multiset().count(v@[i]) > 0);
                assert(unsorted.contains(v@[i]));
                let j = choose|j: int| 0 <= j < unsorted.len() && unsorted[j] == v@[i];
                assert(unsorted[j].id == keys[j]);
            }
            assert forall|i: int, j: int| 0 <= i < j < v@.len() implies v@[i].id < v@[j].id by {
                assert(v@[i] != v@[j]);
                if v@[i].id == v@[j].id {
                    assert(self.particles@[v@[i].id] == v@[i]);
                }
            }
            vstd::seq_lib::to_multiset_len(v@);
            vstd::seq_lib::to_multiset_len(unsorted);
        }
        v
    }
}


// ───────────────────────── interpolation ─────────────────────────

/// The particles of `a` in order, for the snapshot between `a` and `b`: a
/// particle whose id `b` holds (`bm` keys `b` by id) becomes its blend, the
/// entry of `blends` at its position; one that `b` lacks is kept only while
/// the snapshot is nearer `a`.
pub open spec fn blended_from_a(
    a: Seq<Particle>,
    bm: Map<i32, Particle>,
    nearer_b: bool,
    blends: Seq<Particle>,
) -> Seq<Particle>
    decreases a.len(),
{
    if a.len() == 0 {
        Seq::empty()
    } else {
        let rest = blended_from_a(a.drop_last(), bm, nearer_b, blends.drop_last());
        if bm.contains_key(a.last().id) {
            rest.push(blends.last())
        } else if nearer_b {
            rest
        } else {
            rest.push(a.last())
        }
    }
}

/// The particles of `b` in order whose id `am` does not hold.
pub open spec fn only_in(b: Seq<Particle>, am: Map<i32, Particle>) -> Seq<Particle>
    decreases b.len(),
{
    if b.len() == 0 {
        Seq::empty()
    } else {
        let rest = only_in(b.drop_last(), am);
        if am.contains_key(b.last().id) {
            rest
        } else {
            rest.push(b.last())
        }
    }
}

/// The snapshot between `a` and `b`, on the side of `b` when `nearer_b`:
/// the particles of `a` in order, each one that `b` also holds (the last of
/// `b` with its id) replaced by `blend` of the two, each one that `b` lacks
/// kept only on the side of `a`; then, on the side of `b`, the particles of
/// `b` whose id `a` lacks, in order. How two particles blend is the
/// caller's (float interpolation).
pub fn interpolate_by_id<F: Fn(Particle, Particle) -> Particle>(
    a: &Vec<Particle>,
    b: &Vec<Particle>,
    nearer_b: bool,
    blend: &F,
) -> (r: Vec<Particle>)
    requires
        forall|p: Particle, q: Particle| blend.requires((p, q)),
    ensures
        exists|blends: Seq<Particle>|
            {
                &&& blends.len() == a@.len()
                &&& forall|i: int|
                    0 <= i < a@.len() && id_map(b@).contains_key(a@[i].id) ==> call_ensures(
                        *blend,
                        (a@[i], id_map(b@)[a@[i].id]),
                        #[trigger] blends[i],
                    )
                &&& r@ == blended_from_a(a@, id_map(b@), nearer_b, blends) + if nearer_b {
                    only_in(b@, id_map(a@))
                } else {
                    Seq::empty()
                }
            },
{
    let a_map = index_by_id(a);
    let b_map = index_by_id(b);
    let ghost bm = id_map(b@);
    let mut r: Vec<Particle> = Vec::new();
    let ghost mut blends: Seq<Particle> = Seq::empty();
    let mut i: usize = 0;
    while i < a.len()
        invariant
            i <= a@.len(),
            blends.len() == i,
            b_map@ == bm,
            bm == id_map(b@),
            forall|p: Particle, q: Particle| blend.requires((p, q)),
            forall|j: int|
                0 <= j < i && bm.contains_key(a@[j].id) ==> call_ensures(
                    *blend,
                    (a@[j], bm[a@[j].id]),
                    #[trigger] blends[j],
                ),
            r@ == blended_from_a(a@.take(i as int), bm, nearer_b, blends),
        decreases a@.len() - i,
    {
        let pa = a[i];
        let ghost blends0 = blends;
        match b_map.get(&pa.id) {
            Some(pb) => {
                let q = blend(pa, *pb);
                r.push(q);
                proof {
                    blends = blends.push(q);
                }
            },
            None => {
                if !nearer_b {
                    r.push(pa);
                }
                proof {
                    blends = blends.push(pa);
                }
            },
        }
        assert(a@.take(i + 1).drop_last() =~= a@.take(i as int));
        assert(blends.drop_last() =~= blends0);
        i = i + 1;
    }
    assert(a@.take(a@.len() as int) =~= a@);
    let ghost head = r@;
    if nearer_b {
        let mut k: usize = 0;
        while k < b.len()
            invariant
                k <= b@.len(),
                a_map@ == id_map(a@),
                r@ == head + only_in(b@.take(k as int), id_map(a@)),
            decreases b@.len() - k,
        {
            let pb = b[k];
            if !a_map.contains_key(&pb.id) {
                r.push(pb);
            }
            assert(b@.take(k + 1).drop_last() =~= b@.take(k as int));
            k = k + 1;
        }
        assert(b@.take(b@.len() as int) =~= b@);
    } else {
        assert(r@ =~= head + Seq::empty());
    }
    r
}

} // verus!

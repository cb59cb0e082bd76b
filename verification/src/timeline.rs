//! Frame sequences: splitting a run of frames into balanced ranges for
//! parallel export, merging two frame sequences, and laying particle
//! tracks out as frames.
use vstd::prelude::*;
use crate::state::Particle;

verus! {

// ───────────────────────── ranges ─────────────────────────

/// How many ranges `total` frames are split into when `chunks` are asked
/// for: never more ranges than frames.
pub open spec fn range_count(total: u32, chunks: usize) -> nat {
    if total == 0 || chunks == 0 {
        0
    } else if chunks > total {
        total as nat
    } else {
        chunks as nat
    }
}

/// Where range `i` starts: the first `total % n` ranges are one frame
/// longer than the others.
pub open spec fn range_start(total: u32, n: nat, i: nat) -> nat {
    let base = total as nat / n;
    let rem = total as nat % n;
    i * base + if i < rem {
        i
    } else {
        rem
    }
}

proof fn lemma_range_start_step(total: u32, n: nat, i: nat)
    requires
        n >= 1,
    ensures
        range_start(total, n, i + 1) == range_start(total, n, i) + total as nat / n + if i
            < total as nat % n {
            1int
        } else {
            0int
        },
{
    let base = total as nat / n;
    assert((i + 1) * base == i * base + base) by (nonlinear_arith);
}

proof fn lemma_range_start_bound(total: u32, n: nat, i: nat)
    requires
        n >= 1,
        i <= n,
    ensures
        range_start(total, n, i) <= range_start(total, n, n) == total,
{
    let base = total as nat / n;
    let rem = total as nat % n;
    assert(i * base <= n * base) by (nonlinear_arith)
        requires
            i <= n,
    ;
    assert(n * base + rem == total) by (nonlinear_arith)
        requires
            n >= 1,
            base == total as nat / n,
            rem == total as nat % n,
    ;
    assert(rem < n) by (nonlinear_arith)
        requires
            n >= 1,
            rem == total as nat % n,
    ;
}

/// Splits frames `0..total` into `min(chunks, total)` consecutive ranges
/// `(start, end)` whose lengths differ by at most one; none when either
/// is zero.
pub fn split_frame_ranges(total_frames: u32, chunk_count: usize) -> (r: Vec<(u32, u32)>)
    ensures
        r@.len() == range_count(total_frames, chunk_count),
        forall|i: int|
            #![trigger r@[i]]
            0 <= i < r@.len() ==> {
                let n = range_count(total_frames, chunk_count);
                &&& r@[i].0 == range_start(total_frames, n, i as nat)
                &&& r@[i].1 == range_start(total_frames, n, (i + 1) as nat)
            },
{
    if total_frames == 0 || chunk_count == 0 {
        return Vec::new();
    }
    let n: usize = if chunk_count > total_frames as usize {
        total_frames as usize
    } else {
        chunk_count
    };
    let n32: u32 = n as u32;
    let base = total_frames / n32;
    let rem = total_frames % n32;
    let ghost gn: nat = n as nat;
    let mut start: u32 = 0;
    let mut ranges: Vec<(u32, u32)> = Vec::new();
    let mut idx: usize = 0;
    while idx < n
        invariant
            gn == range_count(total_frames, chunk_count),
            gn == n,
            1 <= n <= total_frames,
            n32 == n,
            base == total_frames as nat / gn,
            rem == total_frames as nat % gn,
            idx <= n,
            ranges@.len() == idx,
            start == range_start(total_frames, gn, idx as nat),
            forall|i: int|
                #![trigger ranges@[i]]
                0 <= i < idx ==> {
                    &&& ranges@[i].0 == range_start(total_frames, gn, i as nat)
                    &&& ranges@[i].1 == range_start(total_frames, gn, (i + 1) as nat)
                },
        decreases n - idx,
    {
        proof {
            lemma_range_start_step(total_frames, gn, idx as nat);
            lemma_range_start_bound(total_frames, gn, (idx + 1) as nat);
        }
        let len = base + if idx < rem as usize {
            1
        } else {
            0
        };
        let end = start + len;
        ranges.push((start, end));
        start = end;
        idx = idx + 1;
    }
    ranges
}

/// The ranges of [`split_frame_ranges`] cover `0..total` without gap or
/// overlap: the first starts at 0, each starts where the one before ends,
/// the last ends at `total`, and each holds `total / n` or one more frame,
/// at least one.
pub proof fn lemma_ranges_partition(total: u32, chunks: usize)
    requires
        range_count(total, chunks) > 0,
    ensures
        ({
            let n = range_count(total, chunks);
            &&& range_start(total, n, 0) == 0
            &&& range_start(total, n, n) == total
            &&& forall|i: nat|
                #![trigger range_start(total, n, i + 1)]
                i < n ==> {
                    let len = range_start(total, n, i + 1) - range_start(total, n, i);
                    &&& len == total as nat / n || len == total as nat / n + 1
                    &&& len >= 1
                }
        }),
{
    let n = range_count(total, chunks);
    lemma_range_start_bound(total, n, 0);
    assert forall|i: nat| #![trigger range_start(total, n, i + 1)] i < n implies {
        let len = range_start(total, n, i + 1) - range_start(total, n, i);
        &&& len == total as nat / n || len == total as nat / n + 1
        &&& len >= 1
    } by {
        lemma_range_start_step(total, n, i);
        assert(total as nat / n >= 1) by (nonlinear_arith)
            requires
                1 <= n <= total,
        ;
    }
}

// ───────────────────────── merging ─────────────────────────

/// Frame `i` of `frames`, or no particles past the end.
pub open spec fn frame_or_empty(frames: Seq<Vec<Particle>>, i: int) -> Seq<Particle> {
    if 0 <= i < frames.len() {
        frames[i]@
    } else {
        Seq::empty()
    }
}

/// Merges two frame sequences: the result is as long as the longer one,
/// and each of its frames holds the particles of `a` then those of `b`.
pub fn merge_frames(a: Vec<Vec<Particle>>, b: Vec<Vec<Particle>>) -> (r: Vec<Vec<Particle>>)
    ensures
        r@.len() == if a@.len() >= b@.len() {
            a@.len()
        } else {
            b@.len()
        },
        forall|i: int|
            0 <= i < r@.len() ==> r@[i]@ == frame_or_empty(a@, i) + frame_or_empty(b@, i),
{
    let mut r = a;
    let ghost a0 = r@;
    while r.len() < b.len()
        invariant
            a0.len() <= r@.len() <= b@.len() || r@.len() == a0.len(),
            r@.len() >= a0.len(),
            forall|i: int| 0 <= i < r@.len() ==> r@[i]@ == frame_or_empty(a0, i),
        decreases b@.len() - r@.len(),
    {
        r.push(Vec::new());
    }
    let mut i: usize = 0;
    while i < b.len()
        invariant
            r@.len() == if a0.len() >= b@.len() {
                a0.len()
            } else {
                b@.len()
            },
            i <= b@.len(),
            forall|j: int|
                0 <= j < r@.len() ==> r@[j]@ == frame_or_empty(a0, j) + if j < i {
                    frame_or_empty(b@, j)
                } else {
                    Seq::empty()
                },
        decreases b@.len() - i,
    {
        let mut k: usize = 0;
        let ghost row0 = r@[i as int]@;
        while k < b[i].len()
            invariant
                i < b@.len() <= r@.len(),
                r@.len() == if a0.len() >= b@.len() {
                    a0.len()
                } else {
                    b@.len()
                },
                k <= b@[i as int]@.len(),
                r@[i as int]@ == row0 + b@[i as int]@.take(k as int),
                forall|j: int|
                    0 <= j < r@.len() && j != i ==> r@[j]@ == frame_or_empty(a0, j) + if j < i {
                        frame_or_empty(b@, j)
                    } else {
                        Seq::empty()
                    },
            decreases b@[i as int]@.len() - k,
        {
            let p = b[i][k];
            r[i].push(p);
            k = k + 1;
            assert(r@[i as int]@ =~= row0 + b@[i as int]@.take(k as int));
        }
        assert(b@[i as int]@.take(k as int) =~= b@[i as int]@);
        i = i + 1;
    }
    r
}

// ───────────────────────── tracks ─────────────────────────

/// One point of a particle's track: the tick it is shown at, and its
/// position, colour and size (position and size as float bit patterns).
#[derive(Clone, Copy, Debug)]
pub struct Keyframe {
    pub tick: u32,
    pub pos: [u32; 3],
    pub color: [u8; 4],
    pub size: u32,
}

/// The keyframes of one particle, in the order they were generated.
pub struct Track {
    pub id: i32,
    pub keyframes: Vec<Keyframe>,
}

/// The particle a keyframe of track `id` shows.
pub open spec fn keyframe_particle(id: i32, k: Keyframe) -> Particle {
    Particle { id, pos: k.pos, color: k.color, size: k.size, tex_id: 0, seq_index: 0 }
}

/// The largest tick among the last keyframes of the tracks, 0 if none.
pub open spec fn max_last_tick(ts: Seq<Track>) -> u32
    decreases ts.len(),
{
    if ts.len() == 0 {
        0
    } else {
        let m = max_last_tick(ts.drop_last());
        let ks = ts.last().keyframes@;
        if ks.len() > 0 && ks.last().tick > m {
            ks.last().tick
        } else {
            m
        }
    }
}

/// How many frames the tracks are laid out over: up to the last tick of
/// any track, none for no tracks.
pub open spec fn frame_count(ts: Seq<Track>) -> nat {
    if ts.len() == 0 {
        0
    } else {
        (max_last_tick(ts) + 1) as nat
    }
}

/// The particles of track `id` shown at tick `f`, in keyframe order.
pub open spec fn placed_in(id: i32, ks: Seq<Keyframe>, f: int) -> Seq<Particle>
    decreases ks.len(),
{
    if ks.len() == 0 {
        Seq::empty()
    } else {
        let r = placed_in(id, ks.drop_last(), f);
        if ks.last().tick == f {
            r.push(keyframe_particle(id, ks.last()))
        } else {
            r
        }
    }
}

/// The particles of frame `f`: those of each track in turn.
pub open spec fn frame_spec(ts: Seq<Track>, f: int) -> Seq<Particle>
    decreases ts.len(),
{
    if ts.len() == 0 {
        Seq::empty()
    } else {
        frame_spec(ts.drop_last(), f) + placed_in(ts.last().id, ts.last().keyframes@, f)
    }
}

/// The keyframes of a track come in strictly increasing tick order.
pub open spec fn ticks_increasing(ks: Seq<Keyframe>) -> bool {
    forall|i: int, j: int| 0 <= i < j < ks.len() ==> ks[i].tick < ks[j].tick
}

/// Tracks in strictly increasing id order, each with at least one
/// keyframe, its keyframes in strictly increasing tick order.
pub open spec fn tracks_ordered(ts: Seq<Track>) -> bool {
    &&& forall|i: int, j: int| 0 <= i < j < ts.len() ==> ts[i].id < ts[j].id
    &&& forall|i: int|
        0 <= i < ts.len() ==> #[trigger] ts[i].keyframes@.len() > 0 && ticks_increasing(
            ts[i].keyframes@,
        )
}

proof fn lemma_placed_in_ids(id: i32, ks: Seq<Keyframe>, f: int)
    ensures
        forall|k: int| 0 <= k < placed_in(id, ks, f).len() ==> #[trigger] placed_in(id, ks, f)[k].id == id,
    decreases ks.len(),
{
    if ks.len() > 0 {
        let r = placed_in(id, ks.drop_last(), f);
        lemma_placed_in_ids(id, ks.drop_last(), f);
        if ks.last().tick == f {
            let q = r.push(keyframe_particle(id, ks.last()));
            assert(placed_in(id, ks, f) == q);
            assert forall|k: int| 0 <= k < q.len() implies #[trigger] q[k].id == id by {
                if k < r.len() {
                    assert(q[k] == r[k]);
                }
            }
        }
    }
}

proof fn lemma_placed_in_none(id: i32, ks: Seq<Keyframe>, f: int)
    requires
        forall|j: int| 0 <= j < ks.len() ==> #[trigger] ks[j].tick != f,
    ensures
        placed_in(id, ks, f).len() == 0,
    decreases ks.len(),
{
    if ks.len() > 0 {
        assert(ks.last().tick != f);
        lemma_placed_in_none(id, ks.drop_last(), f);
    }
}

proof fn lemma_placed_in_at_most_one(id: i32, ks: Seq<Keyframe>, f: int)
    requires
        ticks_increasing(ks),
    ensures
        placed_in(id, ks, f).len() <= 1,
        ks.len() > 0 && ks.last().tick == f ==> placed_in(id, ks, f).len() == 1,
    decreases ks.len(),
{
    if ks.len() > 0 {
        let d = ks.drop_last();
        if ks.last().tick == f {
            assert forall|j: int| 0 <= j < d.len() implies #[trigger] d[j].tick != f by {
                assert(ks[j].tick < ks[ks.len() - 1].tick);
            }
            lemma_placed_in_none(id, d, f);
        } else {
            lemma_placed_in_at_most_one(id, d, f);
        }
    }
}

proof fn lemma_frame_ids(ts: Seq<Track>, f: int)
    requires
        tracks_ordered(ts),
    ensures
        forall|i: int, j: int|
            0 <= i < j < frame_spec(ts, f).len() ==> frame_spec(ts, f)[i].id < frame_spec(ts, f)[j].id,
        ts.len() > 0 ==> forall|i: int|
            0 <= i < frame_spec(ts, f).len() ==> frame_spec(ts, f)[i].id <= ts.last().id,
    decreases ts.len(),
{
    if ts.len() > 0 {
        let d = ts.drop_last();
        let t = ts.last();
        assert(tracks_ordered(d)) by {
            assert forall|i: int| 0 <= i < d.len() implies #[trigger] d[i].keyframes@.len() > 0
                && ticks_increasing(d[i].keyframes@) by {
                assert(d[i] == ts[i]);
            }
        }
        lemma_frame_ids(d, f);
        assert(t.keyframes@.len() > 0 && ticks_increasing(t.keyframes@)) by {
            assert(t == ts[ts.len() - 1]);
        }
        lemma_placed_in_ids(t.id, t.keyframes@, f);
        lemma_placed_in_at_most_one(t.id, t.keyframes@, f);
        let a = frame_spec(d, f);
        let b = placed_in(t.id, t.keyframes@, f);
        assert(frame_spec(ts, f) == a + b);
        if d.len() > 0 {
            assert(d.last().id < t.id) by {
                assert(d.last() == ts[ts.len() - 2]);
            }
        } else {
            assert(a.len() == 0);
        }
        assert forall|i: int, j: int| 0 <= i < j < (a + b).len() implies (a + b)[i].id < (a
            + b)[j].id by {
            if j < a.len() {
            } else if i < a.len() {
                assert((a + b)[j] == b[j - a.len()]);
            } else {
                assert(false);
            }
        }
        assert forall|i: int| 0 <= i < (a + b).len() implies (a + b)[i].id <= t.id by {
            if i < a.len() {
            } else {
                assert((a + b)[i] == b[i - a.len()]);
            }
        }
    }
}

proof fn lemma_frame_nonempty(ts: Seq<Track>, f: int, i: int)
    requires
        0 <= i < ts.len(),
        placed_in(ts[i].id, ts[i].keyframes@, f).len() > 0,
    ensures
        frame_spec(ts, f).len() > 0,
    decreases ts.len(),
{
    if i < ts.len() - 1 {
        assert(ts.drop_last()[i] == ts[i]);
        lemma_frame_nonempty(ts.drop_last(), f, i);
    }
}

proof fn lemma_max_attained(ts: Seq<Track>) -> (i: int)
    requires
        ts.len() > 0,
        forall|k: int| 0 <= k < ts.len() ==> #[trigger] ts[k].keyframes@.len() > 0,
    ensures
        0 <= i < ts.len(),
        ts[i].keyframes@.last().tick == max_last_tick(ts),
    decreases ts.len(),
{
    let d = ts.drop_last();
    let t = ts.last();
    assert(t == ts[ts.len() - 1]);
    let m = max_last_tick(d);
    assert(max_last_tick(ts) == if t.keyframes@.len() > 0 && t.keyframes@.last().tick > m {
        t.keyframes@.last().tick
    } else {
        m
    });
    assert(t.keyframes@.len() > 0);
    if d.len() == 0 {
        assert(m == 0);
        ts.len() - 1
    } else {
        assert forall|k: int| 0 <= k < d.len() implies #[trigger] d[k].keyframes@.len() > 0 by {
            assert(d[k] == ts[k]);
        }
        let j = lemma_max_attained(d);
        if t.keyframes@.last().tick > max_last_tick(d) {
            ts.len() - 1
        } else {
            assert(d[j] == ts[j]);
            j
        }
    }
}

/// Ordered tracks make well-formed frames: within every frame the particle
/// ids are strictly increasing, so no id appears twice, and the last frame
/// is not empty.
pub proof fn lemma_ordered_frames(ts: Seq<Track>)
    requires
        tracks_ordered(ts),
        ts.len() > 0,
    ensures
        forall|f: int, i: int, j: int|
            0 <= f < frame_count(ts) && 0 <= i < j < frame_spec(ts, f).len() ==> #[trigger] frame_spec(
                ts,
                f,
            )[i].id < #[trigger] frame_spec(ts, f)[j].id,
        frame_spec(ts, frame_count(ts) - 1).len() > 0,
{
    assert forall|f: int, i: int, j: int|
        0 <= f < frame_count(ts) && 0 <= i < j < frame_spec(ts, f).len() implies #[trigger] frame_spec(
        ts,
        f,
    )[i].id < #[trigger] frame_spec(ts, f)[j].id by {
        lemma_frame_ids(ts, f);
    }
    let k = lemma_max_attained(ts);
    let m = max_last_tick(ts) as int;
    assert(ts[k].keyframes@.len() > 0 && ticks_increasing(ts[k].keyframes@));
    lemma_placed_in_at_most_one(ts[k].id, ts[k].keyframes@, m);
    lemma_frame_nonempty(ts, m, k);
}

/// The largest tick among the last keyframes of the tracks, 0 if none.
pub fn last_tick(tracks: &Vec<Track>) -> (m: u32)
    ensures
        m == max_last_tick(tracks@),
{
    let mut max_tick: u32 = 0;
    let mut ti: usize = 0;
    while ti < tracks.len()
        invariant
            ti <= tracks@.len(),
            max_tick == max_last_tick(tracks@.take(ti as int)),
        decreases tracks@.len() - ti,
    {
        assert(tracks@.take(ti + 1).drop_last() =~= tracks@.take(ti as int));
        let n = tracks[ti].keyframes.len();
        if n > 0 && tracks[ti].keyframes[n - 1].tick > max_tick {
            max_tick = tracks[ti].keyframes[n - 1].tick;
        }
        ti = ti + 1;
    }
    assert(tracks@.take(tracks@.len() as int) =~= tracks@);
    max_tick
}

/// Lays tracks out as frames: frame `f` holds, track by track, a particle
/// for each keyframe at tick `f`. There are as many frames as the largest
/// last tick plus one; a keyframe past that is left out.
pub fn tracks_to_frames(tracks: &Vec<Track>) -> (r: Vec<Vec<Particle>>)
    requires
        max_last_tick(tracks@) < u32::MAX,
    ensures
        r@.len() == frame_count(tracks@),
        forall|f: int| 0 <= f < r@.len() ==> #[trigger] r@[f]@ == frame_spec(tracks@, f),
{
    if tracks.len() == 0 {
        return Vec::new();
    }
    let max_tick = last_tick(tracks);
    let total: usize = max_tick as usize + 1;
    let mut frames: Vec<Vec<Particle>> = Vec::new();
    while frames.len() < total
        invariant
            frames@.len() <= total,
            forall|f: int| 0 <= f < frames@.len() ==> #[trigger] frames@[f]@ == Seq::<Particle>::empty(),
        decreases total - frames@.len(),
    {
        frames.push(Vec::new());
    }
    proof {
        assert forall|f: int| 0 <= f < frames@.len() implies #[trigger] frames@[f]@ == frame_spec(
            tracks@.take(0),
            f,
        ) by {}
    }
    let mut ti: usize = 0;
    while ti < tracks.len()
        invariant
            ti <= tracks@.len(),
            frames@.len() == total,
            forall|f: int|
                0 <= f < frames@.len() ==> #[trigger] frames@[f]@ == frame_spec(
                    tracks@.take(ti as int),
                    f,
                ),
        decreases tracks@.len() - ti,
    {
        let ghost before = frames@;
        let id = tracks[ti].id;
        let mut ki: usize = 0;
        while ki < tracks[ti].keyframes.len()
            invariant
                ti < tracks@.len(),
                id == tracks@[ti as int].id,
                ki <= tracks@[ti as int].keyframes@.len(),
                frames@.len() == total == before.len(),
                forall|f: int|
                    0 <= f < frames@.len() ==> #[trigger] frames@[f]@ == before[f]@ + placed_in(
                        id,
                        tracks@[ti as int].keyframes@.take(ki as int),
                        f,
                    ),
            decreases tracks@[ti as int].keyframes@.len() - ki,
        {
            let ghost ks = tracks@[ti as int].keyframes@;
            assert(ks.take(ki + 1).drop_last() =~= ks.take(ki as int));
            let k = tracks[ti].keyframes[ki];
            let fi = k.tick as usize;
            if fi < frames.len() {
                let p = Particle { id, pos: k.pos, color: k.color, size: k.size, tex_id: 0, seq_index: 0 };
                let ghost mid = frames@;
                frames[fi].push(p);
                assert forall|f: int| 0 <= f < frames@.len() implies #[trigger] frames@[f]@
                    == before[f]@ + placed_in(id, ks.take(ki + 1), f) by {
                    if f == fi {
                        assert(frames@[f]@ =~= mid[f]@.push(p));
                    } else {
                        assert(frames@[f] == mid[f]);
                    }
                }
            } else {
                assert forall|f: int| 0 <= f < frames@.len() implies #[trigger] frames@[f]@
                    == before[f]@ + placed_in(id, ks.take(ki + 1), f) by {}
            }
            ki = ki + 1;
        }
        let ghost ks = tracks@[ti as int].keyframes@;
        assert(ks.take(ks.len() as int) =~= ks);
        assert(tracks@.take(ti + 1).drop_last() =~= tracks@.take(ti as int));
        ti = ti + 1;
    }
    assert(tracks@.take(tracks@.len() as int) =~= tracks@);
    frames
}

} // verus!

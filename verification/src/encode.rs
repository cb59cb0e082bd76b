//! Building frames from particle snapshots: keyframes that store every
//! particle and delta frames against the previous snapshot.
use vstd::prelude::*;
use std::collections::HashMap;
use crate::frame::{IFrame, IFrameView, PFrame, PFrameView};
use crate::state::{
    base_of, i_entry, i_fold, lemma_i_frame_replaces, lemma_p_frame_lifecycle, p_entry,
    p_frame_outcome, Particle,
};

verus! {

broadcast use vstd::std_specs::hash::group_hash_axioms;

/// `d` clamped to the range of an `i8`.
pub open spec fn clamp_i8(d: int) -> i8 {
    if d < -128 {
        -128i8
    } else if d > 127 {
        127i8
    } else {
        d as i8
    }
}

/// The delta that moves the channel value `prev` to `cur`, clamped to the
/// range of an `i8`.
pub fn channel_delta(cur: u8, prev: u8) -> (d: i8)
    ensures
        d == clamp_i8(cur - prev),
{
    let v = cur as i16 - prev as i16;
    if v < -128 {
        -128
    } else if v > 127 {
        127
    } else {
        v as i8
    }
}

/// Particles keyed by id, a later particle with the same id replacing an
/// earlier one.
pub open spec fn id_map(s: Seq<Particle>) -> Map<i32, Particle>
    decreases s.len(),
{
    if s.len() == 0 {
        Map::empty()
    } else {
        id_map(s.drop_last()).insert(s.last().id, s.last())
    }
}

/// The particles of `s` keyed by id, a later particle with the same id
/// replacing an earlier one.
pub fn index_by_id(s: &Vec<Particle>) -> (m: HashMap<i32, Particle>)
    ensures
        m@ == id_map(s@),
{
    let mut m: HashMap<i32, Particle> = HashMap::new();
    let mut i: usize = 0;
    while i < s.len()
        invariant
            i <= s@.len(),
            m@ == id_map(s@.take(i as int)),
        decreases s@.len() - i,
    {
        m.insert(s[i].id, s[i]);
        assert(s@.take(i + 1).drop_last() =~= s@.take(i as int));
        i = i + 1;
    }
    assert(s@.take(s@.len() as int) =~= s@);
    m
}

/// The keyframe that stores the particles `ps` in order, the stored size of
/// particle `i` being `sizes[i]`.
pub open spec fn i_frame_of(ps: Seq<Particle>, sizes: Seq<u16>) -> IFrameView {
    IFrameView {
        xs: ps.map_values(|p: Particle| p.pos[0]),
        ys: ps.map_values(|p: Particle| p.pos[1]),
        zs: ps.map_values(|p: Particle| p.pos[2]),
        r: ps.map_values(|p: Particle| p.color[0]),
        g: ps.map_values(|p: Particle| p.color[1]),
        b: ps.map_values(|p: Particle| p.color[2]),
        a: ps.map_values(|p: Particle| p.color[3]),
        sizes,
        tex_ids: ps.map_values(|p: Particle| p.tex_id),
        seq_indices: ps.map_values(|p: Particle| p.seq_index),
        ids: ps.map_values(|p: Particle| p.id),
    }
}

/// The keyframe that stores the particles `ps` in order; the stored size of
/// each particle is what `quantize` gives for its size.
pub fn i_frame_from_particles<Q: Fn(u32) -> u16>(ps: &Vec<Particle>, quantize: &Q) -> (f: IFrame)
    requires
        forall|s: u32| quantize.requires((s,)),
    ensures
        f@.wf(),
        exists|sizes: Seq<u16>|
            {
                &&& sizes.len() == ps@.len()
                &&& forall|i: int|
                    0 <= i < ps@.len() ==> call_ensures(*quantize, (ps@[i].size,), #[trigger] sizes[i])
                &&& f@ == i_frame_of(ps@, sizes)
            },
{
    let n = ps.len();
    let mut f = IFrame {
        xs: Vec::with_capacity(n),
        ys: Vec::with_capacity(n),
        zs: Vec::with_capacity(n),
        r: Vec::with_capacity(n),
        g: Vec::with_capacity(n),
        b: Vec::with_capacity(n),
        a: Vec::with_capacity(n),
        sizes: Vec::with_capacity(n),
        tex_ids: Vec::with_capacity(n),
        seq_indices: Vec::with_capacity(n),
        ids: Vec::with_capacity(n),
    };
    let mut i: usize = 0;
    while i < n
        invariant
            n == ps@.len(),
            i <= n,
            forall|s: u32| quantize.requires((s,)),
            f.sizes@.len() == i,
            forall|j: int| 0 <= j < i ==> call_ensures(*quantize, (ps@[j].size,), #[trigger] f.sizes@[j]),
            f@ =~= i_frame_of(ps@.take(i as int), f.sizes@),
        decreases n - i,
    {
        let p = ps[i];
        f.xs.push(p.pos[0]);
        f.ys.push(p.pos[1]);
        f.zs.push(p.pos[2]);
        f.r.push(p.color[0]);
        f.g.push(p.color[1]);
        f.b.push(p.color[2]);
        f.a.push(p.color[3]);
        let s = quantize(p.size);
        f.sizes.push(s);
        f.tex_ids.push(p.tex_id);
        f.seq_indices.push(p.seq_index);
        f.ids.push(p.id);
        assert(ps@.take(i + 1) =~= ps@.take(i as int).push(p));
        i = i + 1;
    }
    assert(ps@.take(n as int) =~= ps@);
    f
}

/// The particle a delta for `p` is taken against: the previous particle with
/// the same id, or the zero particle when there is none.
pub open spec fn delta_base(prev: Map<i32, Particle>, p: Particle) -> Particle {
    if prev.contains_key(p.id) {
        prev[p.id]
    } else {
        crate::state::zero_particle(p.id)
    }
}

/// The previous particle with the id of `p`, if any.
pub open spec fn prior_of(prev: Map<i32, Particle>, p: Particle) -> Option<Particle> {
    if prev.contains_key(p.id) {
        Some(prev[p.id])
    } else {
        None
    }
}

/// The delta frame that moves the particles `prev` (keyed by id) to `cur`,
/// in the order of `cur`: integer channels are differences clamped to an
/// `i8`, against the zero particle for a particle `prev` does not hold;
/// position and size deltas are the given `floats` (x, y, z, size).
pub open spec fn p_frame_of(prev: Map<i32, Particle>, cur: Seq<Particle>, floats: Seq<[i16; 4]>) -> PFrameView {
    PFrameView {
        dx: floats.map_values(|d: [i16; 4]| d[0]),
        dy: floats.map_values(|d: [i16; 4]| d[1]),
        dz: floats.map_values(|d: [i16; 4]| d[2]),
        dr: cur.map_values(|p: Particle| clamp_i8(p.color[0] - delta_base(prev, p).color[0])),
        dg: cur.map_values(|p: Particle| clamp_i8(p.color[1] - delta_base(prev, p).color[1])),
        db: cur.map_values(|p: Particle| clamp_i8(p.color[2] - delta_base(prev, p).color[2])),
        da: cur.map_values(|p: Particle| clamp_i8(p.color[3] - delta_base(prev, p).color[3])),
        d_sizes: floats.map_values(|d: [i16; 4]| d[3]),
        d_tex: cur.map_values(|p: Particle| clamp_i8(p.tex_id - delta_base(prev, p).tex_id)),
        d_seq: cur.map_values(|p: Particle| clamp_i8(p.seq_index - delta_base(prev, p).seq_index)),
        ids: cur.map_values(|p: Particle| p.id),
    }
}

/// The delta frame that moves the snapshot `prev` to the snapshot `cur`, in
/// the order of `cur`. A particle of `cur` is matched with the last particle
/// of `prev` that has its id; one without a match is delta-coded against the
/// zero particle. Colour, texture and sequence deltas are the differences
/// clamped to an `i8`; the position and size deltas are what `float_delta`
/// gives for the matched previous particle (`None` without a match) and the
/// current one.
pub fn p_frame_from_particles<D: Fn(Option<Particle>, Particle) -> [i16; 4]>(
    prev: &Vec<Particle>,
    cur: &Vec<Particle>,
    float_delta: &D,
) -> (f: PFrame)
    requires
        forall|a: Option<Particle>, b: Particle| float_delta.requires((a, b)),
    ensures
        f@.wf(),
        exists|floats: Seq<[i16; 4]>|
            {
                &&& floats.len() == cur@.len()
                &&& forall|i: int|
                    0 <= i < cur@.len() ==> call_ensures(
                        *float_delta,
                        (prior_of(id_map(prev@), cur@[i]), cur@[i]),
                        #[trigger] floats[i],
                    )
                &&& f@ == p_frame_of(id_map(prev@), cur@, floats)
            },
{
    let prev_map = index_by_id(prev);
    let ghost pm = id_map(prev@);
    let n = cur.len();
    let mut f = PFrame {
        dx: Vec::with_capacity(n),
        dy: Vec::with_capacity(n),
        dz: Vec::with_capacity(n),
        dr: Vec::with_capacity(n),
        dg: Vec::with_capacity(n),
        db: Vec::with_capacity(n),
        da: Vec::with_capacity(n),
        d_sizes: Vec::with_capacity(n),
        d_tex: Vec::with_capacity(n),
        d_seq: Vec::with_capacity(n),
        ids: Vec::with_capacity(n),
    };
    let ghost mut floats: Seq<[i16; 4]> = Seq::empty();
    let mut i: usize = 0;
    while i < n
        invariant
            n == cur@.len(),
            i <= n,
            prev_map@ == pm,
            forall|a: Option<Particle>, b: Particle| float_delta.requires((a, b)),
            floats.len() == i,
            forall|j: int|
                0 <= j < i ==> call_ensures(
                    *float_delta,
                    (prior_of(pm, cur@[j]), cur@[j]),
                    #[trigger] floats[j],
                ),
            f@ =~= p_frame_of(pm, cur@.take(i as int), floats),
        decreases n - i,
    {
        let p = cur[i];
        let prior = match prev_map.get(&p.id) {
            Some(q) => Some(*q),
            None => None,
        };
        let base = match prior {
            Some(q) => q,
            None => Particle {
                id: p.id,
                pos: [0, 0, 0],
                color: [0, 0, 0, 0],
                size: 0,
                tex_id: 0,
                seq_index: 0,
            },
        };
        assert(prior == prior_of(pm, p));
        assert(base == delta_base(pm, p));
        let d = float_delta(prior, p);
        f.dx.push(d[0]);
        f.dy.push(d[1]);
        f.dz.push(d[2]);
        f.dr.push(channel_delta(p.color[0], base.color[0]));
        f.dg.push(channel_delta(p.color[1], base.color[1]));
        f.db.push(channel_delta(p.color[2], base.color[2]));
        f.da.push(channel_delta(p.color[3], base.color[3]));
        f.d_sizes.push(d[3]);
        f.d_tex.push(channel_delta(p.tex_id, base.tex_id));
        f.d_seq.push(channel_delta(p.seq_index, base.seq_index));
        f.ids.push(p.id);
        proof {
            floats = floats.push(d);
        }
        assert(cur@.take(i + 1) =~= cur@.take(i as int).push(p));
        i = i + 1;
    }
    assert(cur@.take(n as int) =~= cur@);
    f
}


/// Every integer channel of `p` differs from the particle it is delta-coded
/// against by an amount an `i8` holds.
pub open spec fn deltas_fit(prev: Map<i32, Particle>, p: Particle) -> bool {
    let b = delta_base(prev, p);
    &&& -128 <= p.color[0] - b.color[0] <= 127
    &&& -128 <= p.color[1] - b.color[1] <= 127
    &&& -128 <= p.color[2] - b.color[2] <= 127
    &&& -128 <= p.color[3] - b.color[3] <= 127
    &&& -128 <= p.tex_id - b.tex_id <= 127
    &&& -128 <= p.seq_index - b.seq_index <= 127
}

/// The ids of a snapshot.
pub open spec fn ids_of(s: Seq<Particle>) -> Seq<i32> {
    s.map_values(|p: Particle| p.id)
}

/// Delta coding is undone by playback. Applying to the snapshot `prev` the
/// delta frame built from `prev` to `cur` leaves exactly the particles of
/// `cur`, each with the colour, texture and sequence index it has in `cur`,
/// provided the ids of `cur` are distinct and every integer delta fits an
/// `i8`; position and size are the float values playback computes.
pub proof fn lemma_p_frame_restores(
    prev: Seq<Particle>,
    cur: Seq<Particle>,
    floats: Seq<[i16; 4]>,
    fs: Seq<([u32; 3], u32)>,
)
    requires
        ids_of(cur).no_duplicates(),
        floats.len() == cur.len(),
        fs.len() == cur.len(),
        forall|i: int| 0 <= i < cur.len() ==> #[trigger] deltas_fit(id_map(prev), cur[i]),
    ensures
        ({
            let out = p_frame_outcome(id_map(prev), p_frame_of(id_map(prev), cur, floats), fs);
            &&& out.dom() == ids_of(cur).to_set()
            &&& forall|i: int|
                0 <= i < cur.len() ==> {
                    let q = #[trigger] out[cur[i].id];
                    &&& q.id == cur[i].id
                    &&& q.color == cur[i].color
                    &&& q.tex_id == cur[i].tex_id
                    &&& q.seq_index == cur[i].seq_index
                    &&& q.pos == fs[i].0
                    &&& q.size == fs[i].1
                }
        }),
{
    let m = id_map(prev);
    let f = p_frame_of(m, cur, floats);
    assert(f.ids =~= ids_of(cur));
    lemma_p_frame_lifecycle(m, f, fs);
    let out = p_frame_outcome(m, f, fs);
    assert forall|i: int| 0 <= i < cur.len() implies {
        let q = #[trigger] out[cur[i].id];
        &&& q.id == cur[i].id
        &&& q.color == cur[i].color
        &&& q.tex_id == cur[i].tex_id
        &&& q.seq_index == cur[i].seq_index
        &&& q.pos == fs[i].0
        &&& q.size == fs[i].1
    } by {
        assert(f.ids[i] == cur[i].id);
        let b = base_of(m, cur[i].id);
        assert(b == delta_base(m, cur[i]));
        assert(deltas_fit(m, cur[i]));
        let q = out[cur[i].id];
        assert(q == p_entry(b, f, i, fs[i]));
        assert(q.color =~= cur[i].color);
    }
}

/// A keyframe is undone by playback. Applying the keyframe that stores the
/// snapshot `ps` (with distinct ids) gives exactly the particles of `ps`,
/// each with its position, colour, texture and sequence index; sizes are the
/// float values playback computes.
pub proof fn lemma_i_frame_restores(ps: Seq<Particle>, sizes: Seq<u16>, ss: Seq<u32>)
    requires
        ids_of(ps).no_duplicates(),
        sizes.len() == ps.len(),
    ensures
        ({
            let out = i_fold(i_frame_of(ps, sizes), ss, ps.len());
            &&& out.dom() == ids_of(ps).to_set()
            &&& forall|i: int|
                0 <= i < ps.len() ==> {
                    let q = #[trigger] out[ps[i].id];
                    &&& q.id == ps[i].id
                    &&& q.pos == ps[i].pos
                    &&& q.color == ps[i].color
                    &&& q.tex_id == ps[i].tex_id
                    &&& q.seq_index == ps[i].seq_index
                    &&& q.size == ss[i]
                }
        }),
{
    let f = i_frame_of(ps, sizes);
    assert(f.ids =~= ids_of(ps));
    lemma_i_frame_replaces(f, ss);
    let out = i_fold(f, ss, ps.len());
    assert forall|i: int| 0 <= i < ps.len() implies {
        let q = #[trigger] out[ps[i].id];
        &&& q.id == ps[i].id
        &&& q.pos == ps[i].pos
        &&& q.color == ps[i].color
        &&& q.tex_id == ps[i].tex_id
        &&& q.seq_index == ps[i].seq_index
        &&& q.size == ss[i]
    } by {
        assert(f.ids[i] == ps[i].id);
        let q = out[ps[i].id];
        assert(q == i_entry(f, i, ss[i]));
        assert(q.pos =~= ps[i].pos);
        assert(q.color =~= ps[i].color);
    }
}

} // verus!

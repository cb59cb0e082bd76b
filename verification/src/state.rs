//! Playback state: the live particles of the current frame and how I-frames
//! and P-frames change them.
use vstd::prelude::*;
use std::collections::HashMap;
use crate::frame::{IFrame, IFrameView, PFrame, PFrameView};

verus! {

broadcast use vstd::std_specs::hash::group_hash_axioms;

/// One live particle. Position and size are the bit patterns of the 32-bit
/// floats a player renders; the library only moves them around.
#[derive(Clone, Copy, Debug)]
pub struct Particle {
    pub id: i32,
    pub pos: [u32; 3],
    pub color: [u8; 4],
    pub size: u32,
    pub tex_id: u8,
    pub seq_index: u8,
}

/// `c + d`, clamped to `0..=255`.
pub open spec fn sat_add(c: u8, d: i8) -> u8 {
    let v = c + d;
    if v < 0 {
        0
    } else if v > 255 {
        255
    } else {
        v as u8
    }
}

/// `c + d` modulo 256.
pub open spec fn wrap_add(c: u8, d: i8) -> u8 {
    ((c + d) % 256) as u8
}

/// `c + d`, clamped to `0..=255`: a colour channel moved by a delta.
pub fn saturating_add_signed(c: u8, d: i8) -> (r: u8)
    ensures
        r == sat_add(c, d),
{
    let v = c as i16 + d as i16;
    if v < 0 {
        0
    } else if v > 255 {
        255
    } else {
        v as u8
    }
}

/// `c + d` modulo 256: a texture or sequence index moved by a delta.
pub fn wrapping_add_signed(c: u8, d: i8) -> (r: u8)
    ensures
        r == wrap_add(c, d),
{
    let v = c as i16 + d as i16;
    if v < 0 {
        (v + 256) as u8
    } else if v > 255 {
        (v - 256) as u8
    } else {
        v as u8
    }
}

/// The all-zero particle `id` that a spawned particle starts from.
pub open spec fn zero_particle(id: i32) -> Particle {
    Particle { id, pos: [0u32, 0u32, 0u32], color: [0u8, 0u8, 0u8, 0u8], size: 0, tex_id: 0, seq_index: 0 }
}

/// Every particle is stored under its own id.
pub open spec fn keyed_by_id(m: Map<i32, Particle>) -> bool {
    forall|k: i32| #[trigger] m.contains_key(k) ==> m[k].id == k
}

/// The particle that entry `i` of the I-frame `f` describes, its size given
/// as `size`.
pub open spec fn i_entry(f: IFrameView, i: int, size: u32) -> Particle {
    Particle {
        id: f.ids[i],
        pos: [f.xs[i], f.ys[i], f.zs[i]],
        color: [f.r[i], f.g[i], f.b[i], f.a[i]],
        size,
        tex_id: f.tex_ids[i],
        seq_index: f.seq_indices[i],
    }
}

/// The particles after the first `k` entries of the I-frame `f`: each entry
/// stored under its id, a later entry replacing an earlier one with the same
/// id.
pub open spec fn i_fold(f: IFrameView, sizes: Seq<u32>, k: nat) -> Map<i32, Particle>
    decreases k,
{
    if k == 0 {
        Map::empty()
    } else {
        i_fold(f, sizes, (k - 1) as nat).insert(
            f.ids[k - 1],
            i_entry(f, k - 1, sizes[k - 1]),
        )
    }
}

/// Entry `i` of the P-frame `f` applied to `base`: colours move by their
/// deltas clamped to `0..=255`, texture and sequence indices move modulo 256,
/// and position and size take the values `floats` computed by the caller.
pub open spec fn p_entry(base: Particle, f: PFrameView, i: int, floats: ([u32; 3], u32)) -> Particle {
    Particle {
        id: f.ids[i],
        pos: floats.0,
        color: [
            sat_add(base.color[0], f.dr[i]),
            sat_add(base.color[1], f.dg[i]),
            sat_add(base.color[2], f.db[i]),
            sat_add(base.color[3], f.da[i]),
        ],
        size: floats.1,
        tex_id: wrap_add(base.tex_id, f.d_tex[i]),
        seq_index: wrap_add(base.seq_index, f.d_seq[i]),
    }
}

/// The particle stored under `id`, or the zero particle when there is none.
pub open spec fn base_of(m: Map<i32, Particle>, id: i32) -> Particle {
    if m.contains_key(id) {
        m[id]
    } else {
        zero_particle(id)
    }
}

/// The particles after the first `k` entries of the P-frame `f` are applied
/// to `m` one by one, entry `j` taking the float values `fs[j]`.
pub open spec fn p_fold(m: Map<i32, Particle>, f: PFrameView, fs: Seq<([u32; 3], u32)>, k: nat) -> Map<
    i32,
    Particle,
>
    decreases k,
{
    if k == 0 {
        m
    } else {
        let prev = p_fold(m, f, fs, (k - 1) as nat);
        let id = f.ids[k - 1];
        prev.insert(id, p_entry(base_of(prev, id), f, k - 1, fs[k - 1]))
    }
}

/// The particle that entry `i` of `f` updates, or `None` when it spawns one.
pub open spec fn p_prior(m: Map<i32, Particle>, f: PFrameView, fs: Seq<([u32; 3], u32)>, i: int) -> Option<
    Particle,
> {
    let prev = p_fold(m, f, fs, i as nat);
    if prev.contains_key(f.ids[i]) {
        Some(prev[f.ids[i]])
    } else {
        None
    }
}

/// The four wire deltas of entry `i` of `f` that the float values come from:
/// the three position deltas and the size delta.
pub open spec fn p_float_deltas(f: PFrameView, i: int) -> [i16; 4] {
    [f.dx[i], f.dy[i], f.dz[i], f.d_sizes[i]]
}

/// The particles after the P-frame `f`: every entry applied in order, then
/// every particle whose id the frame does not list removed.
pub open spec fn p_frame_outcome(m: Map<i32, Particle>, f: PFrameView, fs: Seq<([u32; 3], u32)>) -> Map<
    i32,
    Particle,
> {
    p_fold(m, f, fs, f.ids.len()).restrict(f.ids.to_set())
}

/// `fs` are float values that `step` may return, entry by entry, when it is
/// handed the particle each entry updates (or `None`) and the entry's wire
/// deltas.
pub open spec fn p_floats_from<F: Fn(Option<Particle>, [i16; 4]) -> ([u32; 3], u32)>(
    m: Map<i32, Particle>,
    f: PFrameView,
    fs: Seq<([u32; 3], u32)>,
    step: F,
) -> bool {
    &&& fs.len() == f.ids.len()
    &&& forall|i: int|
        0 <= i < fs.len() ==> call_ensures(
            step,
            (p_prior(m, f, fs, i), p_float_deltas(f, i)),
            #[trigger] fs[i],
        )
}

/// The fold reads only the float values of the entries it has applied.
proof fn lemma_p_fold_prefix(m: Map<i32, Particle>, f: PFrameView, fs: Seq<([u32; 3], u32)>, x: ([u32; 3], u32), k: nat)
    requires
        k <= fs.len(),
    ensures
        p_fold(m, f, fs.push(x), k) == p_fold(m, f, fs, k),
    decreases k,
{
    if k > 0 {
        lemma_p_fold_prefix(m, f, fs, x, (k - 1) as nat);
        assert(fs.push(x)[k - 1] == fs[k - 1]);
    }
}

/// Every entry keeps the map keyed by id.
proof fn lemma_p_fold_keyed(m: Map<i32, Particle>, f: PFrameView, fs: Seq<([u32; 3], u32)>, k: nat)
    requires
        keyed_by_id(m),
        k <= f.ids.len(),
    ensures
        keyed_by_id(p_fold(m, f, fs, k)),
    decreases k,
{
    if k > 0 {
        lemma_p_fold_keyed(m, f, fs, (k - 1) as nat);
    }
}

/// Every entry's id is present after the entries are applied.
proof fn lemma_p_fold_contains(m: Map<i32, Particle>, f: PFrameView, fs: Seq<([u32; 3], u32)>, k: nat, j: int)
    requires
        0 <= j < k,
        k <= f.ids.len(),
    ensures
        p_fold(m, f, fs, k).contains_key(f.ids[j]),
    decreases k,
{
    if j < k - 1 {
        lemma_p_fold_contains(m, f, fs, (k - 1) as nat, j);
    }
}

/// The live particles of a player, keyed by particle id.
pub struct ParticleSet {
    pub particles: HashMap<i32, Particle>,
}

impl View for ParticleSet {
    type V = Map<i32, Particle>;

    open spec fn view(&self) -> Map<i32, Particle> {
        self.particles@
    }
}

impl ParticleSet {
    /// Every particle is stored under its own id.
    pub open spec fn wf(&self) -> bool {
        keyed_by_id(self@)
    }

    /// No particles.
    pub fn new() -> (s: Self)
        ensures
            s@ == Map::<i32, Particle>::empty(),
            s.wf(),
    {
        ParticleSet { particles: HashMap::new() }
    }

    /// Removes every particle.
    pub fn clear(&mut self)
        ensures
            final(self)@ == Map::<i32, Particle>::empty(),
            final(self).wf(),
    {
        self.particles.clear();
    }

    /// Number of live particles.
    pub fn len(&self) -> (n: usize)
        ensures
            n == self@.len(),
    {
        self.particles.len()
    }

    /// The particle stored under `id`.
    pub fn get(&self, id: i32) -> (r: Option<Particle>)
        ensures
            match r {
                Some(p) => self@.contains_key(id) && self@[id] == p,
                None => !self@.contains_key(id),
            },
    {
        match self.particles.get(&id) {
            Some(p) => Some(*p),
            None => None,
        }
    }

    /// Replaces every particle by the particles of the I-frame `f`: entry
    /// `i` becomes the particle `f.ids[i]` with its position, colour, texture
    /// and sequence index, and the size that `size_of` gives for its stored
    /// size; a later entry with the same id replaces an earlier one.
    pub fn apply_i_frame<S: Fn(u16) -> u32>(&mut self, f: &IFrame, size_of: &S)
        requires
            f@.wf(),
            forall|s: u16| size_of.requires((s,)),
        ensures
            final(self).wf(),
            exists|sizes: Seq<u32>|
                {
                    &&& sizes.len() == f@.ids.len()
                    &&& forall|i: int|
                        0 <= i < sizes.len() ==> call_ensures(
                            *size_of,
                            (f@.sizes[i],),
                            #[trigger] sizes[i],
                        )
                    &&& final(self)@ == i_fold(f@, sizes, f@.ids.len())
                },
    {
        self.particles.clear();
        let ghost mut sizes: Seq<u32> = Seq::empty();
        let n = f.ids.len();
        let mut i: usize = 0;
        while i < n
            invariant
                f@.wf(),
                n == f@.ids.len(),
                i <= n,
                forall|s: u16| size_of.requires((s,)),
                sizes.len() == i,
                forall|j: int|
                    0 <= j < i ==> call_ensures(*size_of, (f@.sizes[j],), #[trigger] sizes[j]),
                self.particles@ == i_fold(f@, sizes, i as nat),
                keyed_by_id(self.particles@),
            decreases n - i,
        {
            let size = size_of(f.sizes[i]);
            let p = Particle {
                id: f.ids[i],
                pos: [f.xs[i], f.ys[i], f.zs[i]],
                color: [f.r[i], f.g[i], f.b[i], f.a[i]],
                size,
                tex_id: f.tex_ids[i],
                seq_index: f.seq_indices[i],
            };
            proof {
                let old_sizes = sizes;
                sizes = sizes.push(size);
                assert forall|k: nat| k <= i implies i_fold(f@, sizes, k) == i_fold(f@, old_sizes, k) by {
                    lemma_i_fold_prefix(f@, old_sizes, size, k);
                }
            }
            self.particles.insert(f.ids[i], p);
            i = i + 1;
        }
    }
    /// Applies the P-frame `f`. Entry by entry, in order: the particle with
    /// the entry's id (or, when there is none, the zero particle: a spawn)
    /// has its colours moved by the colour deltas, clamped to `0..=255`, and
    /// its texture and sequence indices moved modulo 256; its position and
    /// size become what `step` returns for the particle it updates (`None` on
    /// a spawn) and the entry's position and size deltas. Then every particle
    /// whose id the frame does not list is removed.
    pub fn apply_p_frame<F: Fn(Option<Particle>, [i16; 4]) -> ([u32; 3], u32)>(
        &mut self,
        f: &PFrame,
        step: &F,
    )
        requires
            old(self).wf(),
            f@.wf(),
            forall|p: Option<Particle>, d: [i16; 4]| step.requires((p, d)),
        ensures
            final(self).wf(),
            exists|fs: Seq<([u32; 3], u32)>|
                {
                    &&& p_floats_from(old(self)@, f@, fs, *step)
                    &&& final(self)@ == p_frame_outcome(old(self)@, f@, fs)
                },
    {
        let ghost m0 = self@;
        let ghost mut fs: Seq<([u32; 3], u32)> = Seq::empty();
        let n = f.ids.len();
        let mut i: usize = 0;
        while i < n
            invariant
                f@.wf(),
                n == f@.ids.len(),
                i <= n,
                keyed_by_id(m0),
                forall|p: Option<Particle>, d: [i16; 4]| step.requires((p, d)),
                fs.len() == i,
                forall|j: int|
                    0 <= j < i ==> call_ensures(
                        *step,
                        (p_prior(m0, f@, fs, j), p_float_deltas(f@, j)),
                        #[trigger] fs[j],
                    ),
                self@ == p_fold(m0, f@, fs, i as nat),
            decreases n - i,
        {
            let id = f.ids[i];
            let prior = self.get(id);
            let deltas = [f.dx[i], f.dy[i], f.dz[i], f.d_sizes[i]];
            assert(deltas@ =~= p_float_deltas(f@, i as int)@);
            assert(deltas == p_float_deltas(f@, i as int));
            let floats = step(prior, deltas);
            let base = match prior {
                Some(p) => p,
                None => Particle {
                    id,
                    pos: [0, 0, 0],
                    color: [0, 0, 0, 0],
                    size: 0,
                    tex_id: 0,
                    seq_index: 0,
                },
            };
            let p = Particle {
                id,
                pos: floats.0,
                color: [
                    saturating_add_signed(base.color[0], f.dr[i]),
                    saturating_add_signed(base.color[1], f.dg[i]),
                    saturating_add_signed(base.color[2], f.db[i]),
                    saturating_add_signed(base.color[3], f.da[i]),
                ],
                size: floats.1,
                tex_id: wrapping_add_signed(base.tex_id, f.d_tex[i]),
                seq_index: wrapping_add_signed(base.seq_index, f.d_seq[i]),
            };
            proof {
                let old_fs = fs;
                fs = fs.push(floats);
                assert forall|k: nat| k <= i implies p_fold(m0, f@, fs, k) == p_fold(m0, f@, old_fs, k) by {
                    lemma_p_fold_prefix(m0, f@, old_fs, floats, k);
                }
                assert forall|j: int| 0 <= j < i + 1 implies call_ensures(
                    *step,
                    (p_prior(m0, f@, fs, j), p_float_deltas(f@, j)),
                    #[trigger] fs[j],
                ) by {
                    if j < i {
                        assert(p_fold(m0, f@, fs, j as nat) == p_fold(m0, f@, old_fs, j as nat));
                        assert(fs[j] == old_fs[j]);
                    } else {
                        assert(p_fold(m0, f@, fs, i as nat) == p_fold(m0, f@, old_fs, i as nat));
                    }
                }
                assert(base == base_of(p_fold(m0, f@, old_fs, i as nat), id));
                assert(p.color =~= p_entry(base, f@, i as int, floats).color);
                assert(p.pos =~= p_entry(base, f@, i as int, floats).pos);
            }
            self.particles.insert(id, p);
            i = i + 1;
        }
        proof {
            lemma_p_fold_keyed(m0, f@, fs, n as nat);
        }
        self.retain_ids(&f.ids);
        proof {
            assert(p_floats_from(m0, f@, fs, *step));
            assert(self@ == p_frame_outcome(m0, f@, fs));
        }
    }

    /// Keeps only the particles whose ids `ids` lists.
    pub fn retain_ids(&mut self, ids: &Vec<i32>)
        requires
            old(self).wf(),
        ensures
            final(self)@ == old(self)@.restrict(ids@.to_set()),
            final(self).wf(),
    {
        let mut kept: HashMap<i32, Particle> = HashMap::new();
        let mut i: usize = 0;
        while i < ids.len()
            invariant
                i <= ids@.len(),
                kept@ == self@.restrict(ids@.take(i as int).to_set()),
            decreases ids@.len() - i,
        {
            let id = ids[i];
            let ghost before = ids@.take(i as int).to_set();
            assert(ids@.take(i + 1).to_set() =~= before.insert(id)) by {
                assert(ids@.take(i + 1) =~= ids@.take(i as int).push(id));
                ids@.take(i as int).lemma_push_to_set_commute(id);
            }
            match self.particles.get(&id) {
                Some(p) => {
                    kept.insert(id, *p);
                    assert(kept@ =~= self@.restrict(ids@.take(i + 1).to_set()));
                },
                None => {
                    assert(kept@ =~= self@.restrict(ids@.take(i + 1).to_set()));
                },
            }
            i = i + 1;
        }
        assert(ids@.take(ids@.len() as int) =~= ids@);
        self.particles = kept;
    }
}


/// The I-frame fold reads only the sizes of the entries it has applied.
proof fn lemma_i_fold_prefix(f: IFrameView, sizes: Seq<u32>, x: u32, k: nat)
    requires
        k <= sizes.len(),
    ensures
        i_fold(f, sizes.push(x), k) == i_fold(f, sizes, k),
    decreases k,
{
    if k > 0 {
        lemma_i_fold_prefix(f, sizes, x, (k - 1) as nat);
        assert(sizes.push(x)[k - 1] == sizes[k - 1]);
    }
}


/// Entries after the first `k` leave the particles of later, distinct ids
/// untouched.
proof fn lemma_p_fold_untouched(m: Map<i32, Particle>, f: PFrameView, fs: Seq<([u32; 3], u32)>, k: nat, j: int)
    requires
        f.wf(),
        f.ids.no_duplicates(),
        k <= j < f.ids.len(),
    ensures
        p_fold(m, f, fs, k).contains_key(f.ids[j]) == m.contains_key(f.ids[j]),
        m.contains_key(f.ids[j]) ==> p_fold(m, f, fs, k)[f.ids[j]] == m[f.ids[j]],
    decreases k,
{
    if k > 0 {
        lemma_p_fold_untouched(m, f, fs, (k - 1) as nat, j);
        assert(f.ids[k - 1] != f.ids[j]);
    }
}

/// After the first `k` entries, an earlier entry's particle is the entry
/// applied to what the previous state held under its id.
proof fn lemma_p_fold_done(m: Map<i32, Particle>, f: PFrameView, fs: Seq<([u32; 3], u32)>, k: nat, j: int)
    requires
        f.wf(),
        f.ids.no_duplicates(),
        0 <= j < k <= f.ids.len(),
    ensures
        p_fold(m, f, fs, k).contains_key(f.ids[j]),
        p_fold(m, f, fs, k)[f.ids[j]] == p_entry(base_of(m, f.ids[j]), f, j, fs[j]),
    decreases k,
{
    if j == k - 1 {
        lemma_p_fold_untouched(m, f, fs, (k - 1) as nat, j);
    } else {
        lemma_p_fold_done(m, f, fs, (k - 1) as nat, j);
        assert(f.ids[k - 1] != f.ids[j]);
    }
}

/// The particle lifecycle of a P-frame whose ids are distinct. The particles
/// after the frame are exactly those the frame lists (a particle the frame
/// does not list is despawned); a listed particle that existed before is
/// updated from its previous state; a listed particle that did not exist is
/// spawned from the all-zero particle; and the float step of each entry is
/// handed the previous-state particle of its id, or `None` on a spawn.
pub proof fn lemma_p_frame_lifecycle(m: Map<i32, Particle>, f: PFrameView, fs: Seq<([u32; 3], u32)>)
    requires
        f.wf(),
        f.ids.no_duplicates(),
        fs.len() == f.ids.len(),
    ensures
        p_frame_outcome(m, f, fs).dom() == f.ids.to_set(),
        forall|i: int|
            0 <= i < f.ids.len() ==> #[trigger] p_frame_outcome(m, f, fs)[f.ids[i]] == p_entry(
                base_of(m, f.ids[i]),
                f,
                i,
                fs[i],
            ),
        forall|i: int|
            0 <= i < f.ids.len() ==> #[trigger] p_prior(m, f, fs, i) == if m.contains_key(
                f.ids[i],
            ) {
                Some(m[f.ids[i]])
            } else {
                None
            },
{
    let n = f.ids.len();
    let r = p_frame_outcome(m, f, fs);
    let full = p_fold(m, f, fs, n);
    assert forall|id: i32| r.dom().contains(id) <==> f.ids.to_set().contains(id) by {
        if f.ids.to_set().contains(id) {
            let j = choose|j: int| 0 <= j < n && f.ids[j] == id;
            lemma_p_fold_done(m, f, fs, n, j);
        }
    }
    assert(r.dom() =~= f.ids.to_set());
    assert forall|i: int| 0 <= i < n implies #[trigger] r[f.ids[i]] == p_entry(
        base_of(m, f.ids[i]),
        f,
        i,
        fs[i],
    ) by {
        lemma_p_fold_done(m, f, fs, n, i);
        assert(f.ids.to_set().contains(f.ids[i]));
    }
    assert forall|i: int| 0 <= i < n implies #[trigger] p_prior(m, f, fs, i) == if m.contains_key(
        f.ids[i],
    ) {
        Some(m[f.ids[i]])
    } else {
        None
    } by {
        lemma_p_fold_untouched(m, f, fs, i as nat, i);
    }
}

proof fn lemma_i_fold_done(f: IFrameView, sizes: Seq<u32>, k: nat, j: int)
    requires
        f.wf(),
        f.ids.no_duplicates(),
        0 <= j < k <= f.ids.len(),
    ensures
        i_fold(f, sizes, k).contains_key(f.ids[j]),
        i_fold(f, sizes, k)[f.ids[j]] == i_entry(f, j, sizes[j]),
    decreases k,
{
    if j < k - 1 {
        lemma_i_fold_done(f, sizes, (k - 1) as nat, j);
        assert(f.ids[k - 1] != f.ids[j]);
    }
}

/// An I-frame whose ids are distinct (as the format requires) replaces the
/// particles by exactly its entries, each stored under its id.
pub proof fn lemma_i_frame_replaces(f: IFrameView, sizes: Seq<u32>)
    requires
        f.wf(),
        f.ids.no_duplicates(),
    ensures
        i_fold(f, sizes, f.ids.len()).dom() == f.ids.to_set(),
        forall|i: int|
            0 <= i < f.ids.len() ==> #[trigger] i_fold(f, sizes, f.ids.len())[f.ids[i]] == i_entry(
                f,
                i,
                sizes[i],
            ),
{
    let n = f.ids.len();
    let r = i_fold(f, sizes, n);
    assert forall|id: i32| r.dom().contains(id) <==> f.ids.to_set().contains(id) by {
        if f.ids.to_set().contains(id) {
            let j = choose|j: int| 0 <= j < n && f.ids[j] == id;
            lemma_i_fold_done(f, sizes, n, j);
        }
        if r.dom().contains(id) {
            lemma_i_fold_dom(f, sizes, n, id);
        }
    }
    assert(r.dom() =~= f.ids.to_set());
    assert forall|i: int| 0 <= i < n implies #[trigger] r[f.ids[i]] == i_entry(f, i, sizes[i]) by {
        lemma_i_fold_done(f, sizes, n, i);
    }
}

proof fn lemma_i_fold_dom(f: IFrameView, sizes: Seq<u32>, k: nat, id: i32)
    requires
        k <= f.ids.len(),
        i_fold(f, sizes, k).contains_key(id),
    ensures
        exists|j: int| 0 <= j < k && f.ids[j] == id,
    decreases k,
{
    if k > 0 {
        if f.ids[k - 1] != id {
            lemma_i_fold_dom(f, sizes, (k - 1) as nat, id);
        }
    }
}

} // verus!

//! The deterministic parts of the particle emitter editor: emitter shapes,
//! the reproducible random number generator of the simulation, and the
//! choice of keyframes a frame's configuration is interpolated from.
use vstd::prelude::*;

verus! {

/// The shape particles are emitted from.
#[derive(Clone, Copy, Debug, PartialEq, Eq, Structural)]
pub enum EmitterShape {
    Point,
    Sphere,
    Box,
    Ring,
    Cylinder,
    Cone,
    Torus,
}

impl EmitterShape {
    /// The translation key of the shape's name.
    pub fn i18n_key(&self) -> (k: &'static str)
        ensures
            k@ == shape_key(*self),
    {
        proof {
            reveal_strlit("shape_point");
            reveal_strlit("shape_sphere");
            reveal_strlit("shape_box");
            reveal_strlit("shape_ring");
            reveal_strlit("shape_cylinder");
            reveal_strlit("shape_cone");
            reveal_strlit("shape_torus");
        }
        match self {
            EmitterShape::Point => "shape_point",
            EmitterShape::Sphere => "shape_sphere",
            EmitterShape::Box => "shape_box",
            EmitterShape::Ring => "shape_ring",
            EmitterShape::Cylinder => "shape_cylinder",
            EmitterShape::Cone => "shape_cone",
            EmitterShape::Torus => "shape_torus",
        }
    }

    /// Every shape, in the order the editor lists them.
    pub fn all() -> (r: [EmitterShape; 7])
        ensures
            r@ == seq![
                EmitterShape::Point,
                EmitterShape::Sphere,
                EmitterShape::Box,
                EmitterShape::Ring,
                EmitterShape::Cylinder,
                EmitterShape::Cone,
                EmitterShape::Torus,
            ],
    {
        let r = [
            EmitterShape::Point,
            EmitterShape::Sphere,
            EmitterShape::Box,
            EmitterShape::Ring,
            EmitterShape::Cylinder,
            EmitterShape::Cone,
            EmitterShape::Torus,
        ];
        assert(r@ =~= seq![
            EmitterShape::Point,
            EmitterShape::Sphere,
            EmitterShape::Box,
            EmitterShape::Ring,
            EmitterShape::Cylinder,
            EmitterShape::Cone,
            EmitterShape::Torus,
        ]);
        r
    }
}

/// `"shape_"` followed by the shape's name in lower case.
pub open spec fn shape_key(s: EmitterShape) -> Seq<char> {
    match s {
        EmitterShape::Point => seq!['s', 'h', 'a', 'p', 'e', '_', 'p', 'o', 'i', 'n', 't'],
        EmitterShape::Sphere => seq!['s', 'h', 'a', 'p', 'e', '_', 's', 'p', 'h', 'e', 'r', 'e'],
        EmitterShape::Box => seq!['s', 'h', 'a', 'p', 'e', '_', 'b', 'o', 'x'],
        EmitterShape::Ring => seq!['s', 'h', 'a', 'p', 'e', '_', 'r', 'i', 'n', 'g'],
        EmitterShape::Cylinder => seq![
            's', 'h', 'a', 'p', 'e', '_', 'c', 'y', 'l', 'i', 'n', 'd', 'e', 'r',
        ],
        EmitterShape::Cone => seq!['s', 'h', 'a', 'p', 'e', '_', 'c', 'o', 'n', 'e'],
        EmitterShape::Torus => seq!['s', 'h', 'a', 'p', 'e', '_', 't', 'o', 'r', 'u', 's'],
    }
}

/// One xorshift32 step: `x ^= x << 13; x ^= x >> 17; x ^= x << 5`.
pub open spec fn xorshift32(x: u32) -> u32 {
    let a = x ^ ((x << 13u32) as u32);
    let b = a ^ (a >> 17u32);
    b ^ ((b << 5u32) as u32)
}

/// The reproducible generator of the simulation (xorshift32).
pub struct SimpleRng {
    pub state: u32,
}

impl SimpleRng {
    /// A generator seeded with `seed`; the seed 0, which xorshift would never
    /// leave, becomes 1.
    pub fn new(seed: u32) -> (r: Self)
        ensures
            r.state == if seed == 0 {
                1
            } else {
                seed
            },
    {
        SimpleRng { state: if seed == 0 { 1 } else { seed } }
    }

    /// Advances the state by one xorshift32 step and returns the new state.
    pub fn next_u32(&mut self) -> (v: u32)
        ensures
            v == xorshift32(old(self).state),
            final(self).state == v,
    {
        let mut x = self.state;
        x ^= x << 13;
        x ^= x >> 17;
        x ^= x << 5;
        self.state = x;
        x
    }
}

/// A nonzero state stays nonzero: the generator never gets stuck at 0, so
/// a generator made by [`SimpleRng::new`] never yields 0.
pub proof fn lemma_xorshift_nonzero(x: u32)
    requires
        x != 0,
    ensures
        xorshift32(x) != 0,
{
    assert(x != 0 ==> (x ^ ((x << 13u32) as u32)) != 0) by (bit_vector);
    let a = x ^ ((x << 13u32) as u32);
    assert(a != 0 ==> (a ^ (a >> 17u32)) != 0) by (bit_vector);
    let b = a ^ (a >> 17u32);
    assert(b != 0 ==> (b ^ ((b << 5u32) as u32)) != 0) by (bit_vector);
}

/// Where a frame's configuration comes from, given the frames of the
/// configuration keyframes in the order they are listed.
#[derive(Clone, Copy, Debug, PartialEq, Eq, Structural)]
pub struct ConfigBracket {
    /// The keyframe before (or at) the frame, `None` for the base
    /// configuration, which counts as a keyframe at frame 0.
    pub prev: Option<usize>,
    /// The frame of `prev`.
    pub prev_frame: u32,
    /// The first keyframe after the frame, if the scan found one: the
    /// configuration is interpolated towards it; otherwise `prev` is used as
    /// it is.
    pub next: Option<usize>,
}

/// Number of leading keyframes at or before `frame`.
pub open spec fn leading_at_or_before(kfs: Seq<u32>, frame: u32) -> nat
    decreases kfs.len(),
{
    if kfs.len() == 0 || frame < kfs[0] {
        0
    } else {
        1 + leading_at_or_before(kfs.drop_first(), frame)
    }
}

proof fn lemma_leading(kfs: Seq<u32>, frame: u32, i: int)
    requires
        0 <= i <= kfs.len(),
        forall|j: int| 0 <= j < i ==> kfs[j] <= frame,
        i == kfs.len() || frame < kfs[i],
    ensures
        leading_at_or_before(kfs, frame) == i,
    decreases i,
{
    if i > 0 {
        lemma_leading(kfs.drop_first(), frame, i - 1);
    }
}

/// Which configuration keyframes frame `frame` uses, scanning the keyframe
/// frames in order: the last of the leading keyframes at or before `frame`
/// (the base configuration at frame 0 when there is none), and the keyframe
/// that ends the scan, if any.
pub fn config_bracket(frame: u32, kfs: &Vec<u32>) -> (r: ConfigBracket)
    ensures
        ({
            let k = leading_at_or_before(kfs@, frame);
            &&& r.prev == if k == 0 {
                None::<usize>
            } else {
                Some((k - 1) as usize)
            }
            &&& r.prev_frame == if k == 0 {
                0u32
            } else {
                kfs@[k - 1]
            }
            &&& r.next == if k < kfs@.len() {
                Some(k as usize)
            } else {
                None::<usize>
            }
            &&& r.prev_frame <= frame
        }),
{
    let mut prev: Option<usize> = None;
    let mut prev_frame: u32 = 0;
    let mut i: usize = 0;
    let len = kfs.len();
    while i < len && !(frame < kfs[i])
        invariant
            len == kfs@.len(),
            i <= len,
            forall|j: int| 0 <= j < i ==> kfs@[j] <= frame,
            prev == if i == 0 {
                None::<usize>
            } else {
                Some((i - 1) as usize)
            },
            prev_frame == if i == 0 {
                0u32
            } else {
                kfs@[i - 1]
            },
        decreases len - i,
    {
        prev = Some(i);
        prev_frame = kfs[i];
        i = i + 1;
    }
    proof {
        lemma_leading(kfs@, frame, i as int);
    }
    ConfigBracket { prev, prev_frame, next: if i < len { Some(i) } else { None } }
}

/// Which animation keyframes an object's state at a frame is taken from.
#[derive(Clone, Copy, Debug, PartialEq, Eq, Structural)]
pub enum KeySegment {
    /// The object has no keyframes: its own state is used.
    Unanimated,
    /// The keyframe at this frame is used as it is.
    At(u32),
    /// The state is interpolated between the keyframes at these frames.
    Between(u32, u32),
}

/// Keyframe frames in strictly increasing order, as a sorted map keeps them.
pub open spec fn strictly_increasing(keys: Seq<u32>) -> bool {
    forall|i: int, j: int| 0 <= i < j < keys.len() ==> keys[i] < keys[j]
}

/// Which keyframes (given by their strictly increasing frames) an object's
/// state at `frame` is taken from: none when there are no keyframes; the
/// first or the last keyframe at or before the first or at or after the
/// last; otherwise an interpolation between the last keyframe at or before
/// `frame` and the first keyframe after it.
pub fn interpolate_keyframes(frame: u32, keys: &Vec<u32>) -> (r: KeySegment)
    requires
        strictly_increasing(keys@),
    ensures
        keys@.len() == 0 ==> r == KeySegment::Unanimated,
        keys@.len() > 0 && frame <= keys@[0] ==> r == KeySegment::At(keys@[0]),
        keys@.len() > 0 && frame > keys@[0] && frame >= keys@.last() ==> r == KeySegment::At(
            keys@.last(),
        ),
        keys@.len() > 0 && keys@[0] < frame < keys@.last() ==> exists|i: int|
            0 <= i < keys@.len() - 1 && #[trigger] keys@[i] <= frame < keys@[i + 1] && r
                == KeySegment::Between(keys@[i], keys@[i + 1]),
{
    let n = keys.len();
    if n == 0 {
        return KeySegment::Unanimated;
    }
    let first = keys[0];
    let last = keys[n - 1];
    if frame <= first {
        return KeySegment::At(first);
    }
    if frame >= last {
        return KeySegment::At(last);
    }
    let mut prev_f = first;
    let mut i: usize = 1;
    while i < n
        invariant
            n == keys@.len(),
            n > 0,
            first == keys@[0],
            last == keys@[n - 1],
            first < frame < last,
            1 <= i <= n,
            prev_f == keys@[i - 1],
            prev_f <= frame,
        decreases n - i,
    {
        let k = keys[i];
        if k > frame {
            assert(keys@[i - 1] <= frame < keys@[i as int]);
            return KeySegment::Between(prev_f, k);
        }
        prev_f = k;
        i = i + 1;
    }
    proof {
        assert(keys@[n - 1] <= frame);
    }
    KeySegment::At(last)
}

} // verus!

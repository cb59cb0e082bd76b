//! Frame chunks: the decompressed bytes of one frame, a type byte and a
//! particle count followed by a structure-of-arrays payload.
use vstd::prelude::*;
use crate::bytes::{
    i16s_at, i16s_le, i32s_at, i32s_le, i8s_at, i8s_le, lemma_i16s_le_at, lemma_i16s_le_len,
    lemma_i16s_roundtrip, lemma_i32s_le_at, lemma_i32s_le_len, lemma_i32s_roundtrip,
    lemma_i8s_le_at, lemma_i8s_le_len, lemma_i8s_roundtrip, lemma_u16s_le_at, lemma_u16s_le_len,
    lemma_u16s_roundtrip, lemma_u32_le_at, lemma_u32_roundtrip, lemma_u32s_le_at,
    lemma_u32s_le_len, lemma_u32s_roundtrip, lemma_u8s_le_at, lemma_u8s_le_len,
    lemma_u8s_roundtrip, push_i16s, push_i32s, push_i8s, push_u16s, push_u32, push_u32s,
    push_u8s, read_i16s, read_i32s, read_i8s, read_u16s, read_u32, read_u32s, read_u8s, u16s_at,
    u16s_le, u32_at, u32_le, u32s_at, u32s_le, u8s_at, u8s_le,
};

verus! {

/// Errors met while reading an `.nbl` file or one of its frames.
#[derive(Clone, Copy, Debug, PartialEq, Eq, Structural)]
pub enum NblError {
    /// The data ends before a field that the format requires.
    Truncated,
    /// The file does not start with `NEBULAFX`.
    BadMagic,
    /// A frame chunk has a type byte other than 0 (I-frame) or 1 (P-frame).
    UnknownFrameType(u8),
    /// A frame index names a frame the file does not have.
    FrameOutOfRange,
    /// The zstd stream of a frame chunk could not be decompressed.
    Decompress,
    /// A frame chunk could not be compressed.
    Compress,
    /// The file to write would not fit in memory.
    TooLarge,
}

/// A keyframe (type 0): absolute state of every particle. Positions are the
/// bit patterns of 32-bit floats; sizes are in hundredths.
#[derive(Clone, Debug)]
pub struct IFrame {
    pub xs: Vec<u32>,
    pub ys: Vec<u32>,
    pub zs: Vec<u32>,
    pub r: Vec<u8>,
    pub g: Vec<u8>,
    pub b: Vec<u8>,
    pub a: Vec<u8>,
    pub sizes: Vec<u16>,
    pub tex_ids: Vec<u8>,
    pub seq_indices: Vec<u8>,
    pub ids: Vec<i32>,
}

/// A delta frame (type 1): per-particle changes against the previous state.
/// Position deltas are in thousandths of a block, size deltas in hundredths.
#[derive(Clone, Debug)]
pub struct PFrame {
    pub dx: Vec<i16>,
    pub dy: Vec<i16>,
    pub dz: Vec<i16>,
    pub dr: Vec<i8>,
    pub dg: Vec<i8>,
    pub db: Vec<i8>,
    pub da: Vec<i8>,
    pub d_sizes: Vec<i16>,
    pub d_tex: Vec<i8>,
    pub d_seq: Vec<i8>,
    pub ids: Vec<i32>,
}

/// A decoded frame chunk.
#[derive(Clone, Debug)]
pub enum FrameData {
    I(IFrame),
    P(PFrame),
}

/// The columns of an [`IFrame`].
#[verifier::ext_equal]
pub struct IFrameView {
    pub xs: Seq<u32>,
    pub ys: Seq<u32>,
    pub zs: Seq<u32>,
    pub r: Seq<u8>,
    pub g: Seq<u8>,
    pub b: Seq<u8>,
    pub a: Seq<u8>,
    pub sizes: Seq<u16>,
    pub tex_ids: Seq<u8>,
    pub seq_indices: Seq<u8>,
    pub ids: Seq<i32>,
}

/// The columns of a [`PFrame`].
#[verifier::ext_equal]
pub struct PFrameView {
    pub dx: Seq<i16>,
    pub dy: Seq<i16>,
    pub dz: Seq<i16>,
    pub dr: Seq<i8>,
    pub dg: Seq<i8>,
    pub db: Seq<i8>,
    pub da: Seq<i8>,
    pub d_sizes: Seq<i16>,
    pub d_tex: Seq<i8>,
    pub d_seq: Seq<i8>,
    pub ids: Seq<i32>,
}

/// The mathematical content of a [`FrameData`].
pub enum FrameView {
    I(IFrameView),
    P(PFrameView),
}

impl View for IFrame {
    type V = IFrameView;

    open spec fn view(&self) -> IFrameView {
        IFrameView {
            xs: self.xs@,
            ys: self.ys@,
            zs: self.zs@,
            r: self.r@,
            g: self.g@,
            b: self.b@,
            a: self.a@,
            sizes: self.sizes@,
            tex_ids: self.tex_ids@,
            seq_indices: self.seq_indices@,
            ids: self.ids@,
        }
    }
}

impl View for PFrame {
    type V = PFrameView;

    open spec fn view(&self) -> PFrameView {
        PFrameView {
            dx: self.dx@,
            dy: self.dy@,
            dz: self.dz@,
            dr: self.dr@,
            dg: self.dg@,
            db: self.db@,
            da: self.da@,
            d_sizes: self.d_sizes@,
            d_tex: self.d_tex@,
            d_seq: self.d_seq@,
            ids: self.ids@,
        }
    }
}

impl View for FrameData {
    type V = FrameView;

    open spec fn view(&self) -> FrameView {
        match self {
            FrameData::I(f) => FrameView::I(f@),
            FrameData::P(f) => FrameView::P(f@),
        }
    }
}

impl IFrameView {
    /// Every column has one entry per particle.
    pub open spec fn wf(self) -> bool {
        let n = self.ids.len();
        &&& self.xs.len() == n
        &&& self.ys.len() == n
        &&& self.zs.len() == n
        &&& self.r.len() == n
        &&& self.g.len() == n
        &&& self.b.len() == n
        &&& self.a.len() == n
        &&& self.sizes.len() == n
        &&& self.tex_ids.len() == n
        &&& self.seq_indices.len() == n
    }
}

impl PFrameView {
    /// Every column has one entry per particle.
    pub open spec fn wf(self) -> bool {
        let n = self.ids.len();
        &&& self.dx.len() == n
        &&& self.dy.len() == n
        &&& self.dz.len() == n
        &&& self.dr.len() == n
        &&& self.dg.len() == n
        &&& self.db.len() == n
        &&& self.da.len() == n
        &&& self.d_sizes.len() == n
        &&& self.d_tex.len() == n
        &&& self.d_seq.len() == n
    }
}

/// Byte length of an I-frame chunk of `n` particles.
pub open spec fn i_frame_len(n: nat) -> nat {
    5 + 24 * n
}

/// Byte length of a P-frame chunk of `n` particles.
pub open spec fn p_frame_len(n: nat) -> nat {
    5 + 18 * n
}

/// The chunk bytes of the I-frame `f`.
pub open spec fn i_frame_bytes(f: IFrameView) -> Seq<u8> {
    seq![0u8] + u32_le(f.ids.len() as u32) + u32s_le(f.xs) + u32s_le(f.ys) + u32s_le(f.zs)
        + u8s_le(f.r) + u8s_le(f.g) + u8s_le(f.b) + u8s_le(f.a) + u16s_le(f.sizes) + u8s_le(
        f.tex_ids,
    ) + u8s_le(f.seq_indices) + i32s_le(f.ids)
}

/// The chunk bytes of the P-frame `f`.
pub open spec fn p_frame_bytes(f: PFrameView) -> Seq<u8> {
    seq![1u8] + u32_le(f.ids.len() as u32) + i16s_le(f.dx) + i16s_le(f.dy) + i16s_le(f.dz)
        + i8s_le(f.dr) + i8s_le(f.dg) + i8s_le(f.db) + i8s_le(f.da) + i16s_le(f.d_sizes) + i8s_le(
        f.d_tex,
    ) + i8s_le(f.d_seq) + i32s_le(f.ids)
}

/// The I-frame of `n` particles whose payload starts at byte 5 of `b`.
pub open spec fn i_frame_at(b: Seq<u8>, n: nat) -> IFrameView {
    IFrameView {
        xs: u32s_at(b, 5, n),
        ys: u32s_at(b, (5 + 4 * n) as int, n),
        zs: u32s_at(b, (5 + 8 * n) as int, n),
        r: u8s_at(b, (5 + 12 * n) as int, n),
        g: u8s_at(b, (5 + 13 * n) as int, n),
        b: u8s_at(b, (5 + 14 * n) as int, n),
        a: u8s_at(b, (5 + 15 * n) as int, n),
        sizes: u16s_at(b, (5 + 16 * n) as int, n),
        tex_ids: u8s_at(b, (5 + 18 * n) as int, n),
        seq_indices: u8s_at(b, (5 + 19 * n) as int, n),
        ids: i32s_at(b, (5 + 20 * n) as int, n),
    }
}

/// The P-frame of `n` particles whose payload starts at byte 5 of `b`.
pub open spec fn p_frame_at(b: Seq<u8>, n: nat) -> PFrameView {
    PFrameView {
        dx: i16s_at(b, 5, n),
        dy: i16s_at(b, (5 + 2 * n) as int, n),
        dz: i16s_at(b, (5 + 4 * n) as int, n),
        dr: i8s_at(b, (5 + 6 * n) as int, n),
        dg: i8s_at(b, (5 + 7 * n) as int, n),
        db: i8s_at(b, (5 + 8 * n) as int, n),
        da: i8s_at(b, (5 + 9 * n) as int, n),
        d_sizes: i16s_at(b, (5 + 10 * n) as int, n),
        d_tex: i8s_at(b, (5 + 12 * n) as int, n),
        d_seq: i8s_at(b, (5 + 13 * n) as int, n),
        ids: i32s_at(b, (5 + 14 * n) as int, n),
    }
}

/// What a decompressed chunk holds: the type byte and the little-endian
/// particle count, then a payload whose layout the type byte selects. Bytes
/// past the payload are not read.
pub open spec fn chunk_spec(b: Seq<u8>) -> Result<FrameView, NblError> {
    if b.len() < 5 {
        Err(NblError::Truncated)
    } else {
        let n = u32_at(b, 1) as nat;
        if b[0] == 0 {
            if b.len() < i_frame_len(n) {
                Err(NblError::Truncated)
            } else {
                Ok(FrameView::I(i_frame_at(b, n)))
            }
        } else if b[0] == 1 {
            if b.len() < p_frame_len(n) {
                Err(NblError::Truncated)
            } else {
                Ok(FrameView::P(p_frame_at(b, n)))
            }
        } else {
            Err(NblError::UnknownFrameType(b[0]))
        }
    }
}

/// Decodes one decompressed frame chunk.
pub fn decode_chunk(b: &[u8]) -> (r: Result<FrameData, NblError>)
    ensures
        match r {
            Ok(f) => chunk_spec(b@) == Ok::<FrameView, NblError>(f@),
            Err(e) => chunk_spec(b@) == Err::<FrameView, NblError>(e),
        },
{
    let len = b.len();
    if len < 5 {
        return Err(NblError::Truncated);
    }
    let count = read_u32(b, 1);
    let n = count as usize;
    let frame_type = b[0];
    if frame_type == 0 {
        if (len as u64) < 5 + 24 * (count as u64) {
            return Err(NblError::Truncated);
        }
        let f = IFrame {
            xs: read_u32s(b, 5, n),
            ys: read_u32s(b, 5 + 4 * n, n),
            zs: read_u32s(b, 5 + 8 * n, n),
            r: read_u8s(b, 5 + 12 * n, n),
            g: read_u8s(b, 5 + 13 * n, n),
            b: read_u8s(b, 5 + 14 * n, n),
            a: read_u8s(b, 5 + 15 * n, n),
            sizes: read_u16s(b, 5 + 16 * n, n),
            tex_ids: read_u8s(b, 5 + 18 * n, n),
            seq_indices: read_u8s(b, 5 + 19 * n, n),
            ids: read_i32s(b, 5 + 20 * n, n),
        };
        Ok(FrameData::I(f))
    } else if frame_type == 1 {
        if (len as u64) < 5 + 18 * (count as u64) {
            return Err(NblError::Truncated);
        }
        let f = PFrame {
            dx: read_i16s(b, 5, n),
            dy: read_i16s(b, 5 + 2 * n, n),
            dz: read_i16s(b, 5 + 4 * n, n),
            dr: read_i8s(b, 5 + 6 * n, n),
            dg: read_i8s(b, 5 + 7 * n, n),
            db: read_i8s(b, 5 + 8 * n, n),
            da: read_i8s(b, 5 + 9 * n, n),
            d_sizes: read_i16s(b, 5 + 10 * n, n),
            d_tex: read_i8s(b, 5 + 12 * n, n),
            d_seq: read_i8s(b, 5 + 13 * n, n),
            ids: read_i32s(b, 5 + 14 * n, n),
        };
        Ok(FrameData::P(f))
    } else {
        Err(NblError::UnknownFrameType(frame_type))
    }
}


/// The chunk bytes of the I-frame `f`.
pub fn encode_i_frame(f: &IFrame) -> (r: Vec<u8>)
    requires
        f@.wf(),
        f.ids@.len() <= u32::MAX,
    ensures
        r@ == i_frame_bytes(f@),
{
    let mut buf: Vec<u8> = Vec::new();
    buf.push(0u8);
    push_u32(&mut buf, f.ids.len() as u32);
    push_u32s(&mut buf, &f.xs);
    push_u32s(&mut buf, &f.ys);
    push_u32s(&mut buf, &f.zs);
    push_u8s(&mut buf, &f.r);
    push_u8s(&mut buf, &f.g);
    push_u8s(&mut buf, &f.b);
    push_u8s(&mut buf, &f.a);
    push_u16s(&mut buf, &f.sizes);
    push_u8s(&mut buf, &f.tex_ids);
    push_u8s(&mut buf, &f.seq_indices);
    push_i32s(&mut buf, &f.ids);
    buf
}

/// Decoding the bytes of a I-frame gives the frame back; bytes after the
/// chunk are not read.
#[verifier::rlimit(80)]
pub proof fn lemma_i_frame_roundtrip(f: IFrameView, rest: Seq<u8>)
    requires
        f.wf(),
        f.ids.len() <= u32::MAX,
    ensures
        i_frame_bytes(f).len() == i_frame_len(f.ids.len()),
        chunk_spec(i_frame_bytes(f) + rest) == Ok::<FrameView, NblError>(FrameView::I(f)),
{
    let n = f.ids.len();
    let b = i_frame_bytes(f) + rest;
    lemma_u32s_le_len(f.xs);
    lemma_u32s_le_len(f.ys);
    lemma_u32s_le_len(f.zs);
    lemma_u8s_le_len(f.r);
    lemma_u8s_le_len(f.g);
    lemma_u8s_le_len(f.b);
    lemma_u8s_le_len(f.a);
    lemma_u16s_le_len(f.sizes);
    lemma_u8s_le_len(f.tex_ids);
    lemma_u8s_le_len(f.seq_indices);
    lemma_i32s_le_len(f.ids);
    lemma_u32_roundtrip(n as u32);
    assert(b.subrange(1, 5) =~= u32_le(n as u32));
    assert(u32_le(n as u32).subrange(0, 4) =~= u32_le(n as u32));
    assert(u32_at(b, 1) == n as u32);
    assert(b.subrange((5) as int, (5) as int + 4 * n) =~= u32s_le(f.xs));
    lemma_u32s_roundtrip(f.xs, b, (5) as int);
    assert(b.subrange((5 + 4 * n) as int, (5 + 4 * n) as int + 4 * n) =~= u32s_le(f.ys));
    lemma_u32s_roundtrip(f.ys, b, (5 + 4 * n) as int);
    assert(b.subrange((5 + 8 * n) as int, (5 + 8 * n) as int + 4 * n) =~= u32s_le(f.zs));
    lemma_u32s_roundtrip(f.zs, b, (5 + 8 * n) as int);
    assert(b.subrange((5 + 12 * n) as int, (5 + 12 * n) as int + 1 * n) =~= u8s_le(f.r));
    lemma_u8s_roundtrip(f.r, b, (5 + 12 * n) as int);
    assert(b.subrange((5 + 13 * n) as int, (5 + 13 * n) as int + 1 * n) =~= u8s_le(f.g));
    lemma_u8s_roundtrip(f.g, b, (5 + 13 * n) as int);
    assert(b.subrange((5 + 14 * n) as int, (5 + 14 * n) as int + 1 * n) =~= u8s_le(f.b));
    lemma_u8s_roundtrip(f.b, b, (5 + 14 * n) as int);
    assert(b.subrange((5 + 15 * n) as int, (5 + 15 * n) as int + 1 * n) =~= u8s_le(f.a));
    lemma_u8s_roundtrip(f.a, b, (5 + 15 * n) as int);
    assert(b.subrange((5 + 16 * n) as int, (5 + 16 * n) as int + 2 * n) =~= u16s_le(f.sizes));
    lemma_u16s_roundtrip(f.sizes, b, (5 + 16 * n) as int);
    assert(b.subrange((5 + 18 * n) as int, (5 + 18 * n) as int + 1 * n) =~= u8s_le(f.tex_ids));
    lemma_u8s_roundtrip(f.tex_ids, b, (5 + 18 * n) as int);
    assert(b.subrange((5 + 19 * n) as int, (5 + 19 * n) as int + 1 * n) =~= u8s_le(f.seq_indices));
    lemma_u8s_roundtrip(f.seq_indices, b, (5 + 19 * n) as int);
    assert(b.subrange((5 + 20 * n) as int, (5 + 20 * n) as int + 4 * n) =~= i32s_le(f.ids));
    lemma_i32s_roundtrip(f.ids, b, (5 + 20 * n) as int);
    assert(i_frame_at(b, n) =~= f);
}

/// Encoding a decoded I-frame gives back the bytes of its chunk.
pub proof fn lemma_i_frame_reencode(b: Seq<u8>)
    requires
        b.len() >= 5,
        b[0] == 0u8,
        b.len() >= i_frame_len(u32_at(b, 1) as nat),
    ensures
        i_frame_bytes(i_frame_at(b, u32_at(b, 1) as nat)) == b.subrange(0, i_frame_len(u32_at(b, 1) as nat) as int),
{
    let n = u32_at(b, 1) as nat;
    let f = i_frame_at(b, n);
    lemma_u32s_le_at(b, (5) as int, n);
    lemma_u32s_le_at(b, (5 + 4 * n) as int, n);
    lemma_u32s_le_at(b, (5 + 8 * n) as int, n);
    lemma_u8s_le_at(b, (5 + 12 * n) as int, n);
    lemma_u8s_le_at(b, (5 + 13 * n) as int, n);
    lemma_u8s_le_at(b, (5 + 14 * n) as int, n);
    lemma_u8s_le_at(b, (5 + 15 * n) as int, n);
    lemma_u16s_le_at(b, (5 + 16 * n) as int, n);
    lemma_u8s_le_at(b, (5 + 18 * n) as int, n);
    lemma_u8s_le_at(b, (5 + 19 * n) as int, n);
    lemma_i32s_le_at(b, (5 + 20 * n) as int, n);
    lemma_u32_le_at(b, 1);
    assert(f.ids.len() == n);
    assert(b.subrange(0, i_frame_len(n) as int) =~= seq![0u8] + b.subrange(1, 5) + b.subrange((5) as int, (5) as int + 4 * n) + b.subrange((5 + 4 * n) as int, (5 + 4 * n) as int + 4 * n) + b.subrange((5 + 8 * n) as int, (5 + 8 * n) as int + 4 * n) + b.subrange((5 + 12 * n) as int, (5 + 12 * n) as int + 1 * n) + b.subrange((5 + 13 * n) as int, (5 + 13 * n) as int + 1 * n) + b.subrange((5 + 14 * n) as int, (5 + 14 * n) as int + 1 * n) + b.subrange((5 + 15 * n) as int, (5 + 15 * n) as int + 1 * n) + b.subrange((5 + 16 * n) as int, (5 + 16 * n) as int + 2 * n) + b.subrange((5 + 18 * n) as int, (5 + 18 * n) as int + 1 * n) + b.subrange((5 + 19 * n) as int, (5 + 19 * n) as int + 1 * n) + b.subrange((5 + 20 * n) as int, (5 + 20 * n) as int + 4 * n));
}

/// The chunk bytes of the P-frame `f`.
pub fn encode_p_frame(f: &PFrame) -> (r: Vec<u8>)
    requires
        f@.wf(),
        f.ids@.len() <= u32::MAX,
    ensures
        r@ == p_frame_bytes(f@),
{
    let mut buf: Vec<u8> = Vec::new();
    buf.push(1u8);
    push_u32(&mut buf, f.ids.len() as u32);
    push_i16s(&mut buf, &f.dx);
    push_i16s(&mut buf, &f.dy);
    push_i16s(&mut buf, &f.dz);
    push_i8s(&mut buf, &f.dr);
    push_i8s(&mut buf, &f.dg);
    push_i8s(&mut buf, &f.db);
    push_i8s(&mut buf, &f.da);
    push_i16s(&mut buf, &f.d_sizes);
    push_i8s(&mut buf, &f.d_tex);
    push_i8s(&mut buf, &f.d_seq);
    push_i32s(&mut buf, &f.ids);
    buf
}

/// Decoding the bytes of a P-frame gives the frame back; bytes after the
/// chunk are not read.
#[verifier::rlimit(80)]
pub proof fn lemma_p_frame_roundtrip(f: PFrameView, rest: Seq<u8>)
    requires
        f.wf(),
        f.ids.len() <= u32::MAX,
    ensures
        p_frame_bytes(f).len() == p_frame_len(f.ids.len()),
        chunk_spec(p_frame_bytes(f) + rest) == Ok::<FrameView, NblError>(FrameView::P(f)),
{
    let n = f.ids.len();
    let b = p_frame_bytes(f) + rest;
    lemma_i16s_le_len(f.dx);
    lemma_i16s_le_len(f.dy);
    lemma_i16s_le_len(f.dz);
    lemma_i8s_le_len(f.dr);
    lemma_i8s_le_len(f.dg);
    lemma_i8s_le_len(f.db);
    lemma_i8s_le_len(f.da);
    lemma_i16s_le_len(f.d_sizes);
    lemma_i8s_le_len(f.d_tex);
    lemma_i8s_le_len(f.d_seq);
    lemma_i32s_le_len(f.ids);
    lemma_u32_roundtrip(n as u32);
    assert(b.subrange(1, 5) =~= u32_le(n as u32));
    assert(u32_le(n as u32).subrange(0, 4) =~= u32_le(n as u32));
    assert(u32_at(b, 1) == n as u32);
    assert(b.subrange((5) as int, (5) as int + 2 * n) =~= i16s_le(f.dx));
    lemma_i16s_roundtrip(f.dx, b, (5) as int);
    assert(b.subrange((5 + 2 * n) as int, (5 + 2 * n) as int + 2 * n) =~= i16s_le(f.dy));
    lemma_i16s_roundtrip(f.dy, b, (5 + 2 * n) as int);
    assert(b.subrange((5 + 4 * n) as int, (5 + 4 * n) as int + 2 * n) =~= i16s_le(f.dz));
    lemma_i16s_roundtrip(f.dz, b, (5 + 4 * n) as int);
    assert(b.subrange((5 + 6 * n) as int, (5 + 6 * n) as int + 1 * n) =~= i8s_le(f.dr));
    lemma_i8s_roundtrip(f.dr, b, (5 + 6 * n) as int);
    assert(b.subrange((5 + 7 * n) as int, (5 + 7 * n) as int + 1 * n) =~= i8s_le(f.dg));
    lemma_i8s_roundtrip(f.dg, b, (5 + 7 * n) as int);
    assert(b.subrange((5 + 8 * n) as int, (5 + 8 * n) as int + 1 * n) =~= i8s_le(f.db));
    lemma_i8s_roundtrip(f.db, b, (5 + 8 * n) as int);
    assert(b.subrange((5 + 9 * n) as int, (5 + 9 * n) as int + 1 * n) =~= i8s_le(f.da));
    lemma_i8s_roundtrip(f.da, b, (5 + 9 * n) as int);
    assert(b.subrange((5 + 10 * n) as int, (5 + 10 * n) as int + 2 * n) =~= i16s_le(f.d_sizes));
    lemma_i16s_roundtrip(f.d_sizes, b, (5 + 10 * n) as int);
    assert(b.subrange((5 + 12 * n) as int, (5 + 12 * n) as int + 1 * n) =~= i8s_le(f.d_tex));
    lemma_i8s_roundtrip(f.d_tex, b, (5 + 12 * n) as int);
    assert(b.subrange((5 + 13 * n) as int, (5 + 13 * n) as int + 1 * n) =~= i8s_le(f.d_seq));
    lemma_i8s_roundtrip(f.d_seq, b, (5 + 13 * n) as int);
    assert(b.subrange((5 + 14 * n) as int, (5 + 14 * n) as int + 4 * n) =~= i32s_le(f.ids));
    lemma_i32s_roundtrip(f.ids, b, (5 + 14 * n) as int);
    assert(p_frame_at(b, n) =~= f);
}

/// Encoding a decoded P-frame gives back the bytes of its chunk.
pub proof fn lemma_p_frame_reencode(b: Seq<u8>)
    requires
        b.len() >= 5,
        b[0] == 1u8,
        b.len() >= p_frame_len(u32_at(b, 1) as nat),
    ensures
        p_frame_bytes(p_frame_at(b, u32_at(b, 1) as nat)) == b.subrange(0, p_frame_len(u32_at(b, 1) as nat) as int),
{
    let n = u32_at(b, 1) as nat;
    let f = p_frame_at(b, n);
    lemma_i16s_le_at(b, (5) as int, n);
    lemma_i16s_le_at(b, (5 + 2 * n) as int, n);
    lemma_i16s_le_at(b, (5 + 4 * n) as int, n);
    lemma_i8s_le_at(b, (5 + 6 * n) as int, n);
    lemma_i8s_le_at(b, (5 + 7 * n) as int, n);
    lemma_i8s_le_at(b, (5 + 8 * n) as int, n);
    lemma_i8s_le_at(b, (5 + 9 * n) as int, n);
    lemma_i16s_le_at(b, (5 + 10 * n) as int, n);
    lemma_i8s_le_at(b, (5 + 12 * n) as int, n);
    lemma_i8s_le_at(b, (5 + 13 * n) as int, n);
    lemma_i32s_le_at(b, (5 + 14 * n) as int, n);
    lemma_u32_le_at(b, 1);
    assert(f.ids.len() == n);
    assert(b.subrange(0, p_frame_len(n) as int) =~= seq![1u8] + b.subrange(1, 5) + b.subrange((5) as int, (5) as int + 2 * n) + b.subrange((5 + 2 * n) as int, (5 + 2 * n) as int + 2 * n) + b.subrange((5 + 4 * n) as int, (5 + 4 * n) as int + 2 * n) + b.subrange((5 + 6 * n) as int, (5 + 6 * n) as int + 1 * n) + b.subrange((5 + 7 * n) as int, (5 + 7 * n) as int + 1 * n) + b.subrange((5 + 8 * n) as int, (5 + 8 * n) as int + 1 * n) + b.subrange((5 + 9 * n) as int, (5 + 9 * n) as int + 1 * n) + b.subrange((5 + 10 * n) as int, (5 + 10 * n) as int + 2 * n) + b.subrange((5 + 12 * n) as int, (5 + 12 * n) as int + 1 * n) + b.subrange((5 + 13 * n) as int, (5 + 13 * n) as int + 1 * n) + b.subrange((5 + 14 * n) as int, (5 + 14 * n) as int + 4 * n));
}


/// Where the columns of an I-frame stand in its chunk: the type byte 0,
/// the particle count `n` little-endian at 1, then from byte 5 the `n` x,
/// the `n` y and the `n` z positions (4 bytes each), the red, green, blue
/// and alpha components (1 byte each), the sizes (2 bytes), the texture
/// ids, the sequence indices (1 byte each) and the particle ids (4 bytes).
pub proof fn lemma_i_frame_layout(f: IFrameView)
    requires
        f.wf(),
        f.ids.len() <= u32::MAX,
    ensures
        ({
            let b = i_frame_bytes(f);
            let n = f.ids.len() as int;
            &&& b.len() == 5 + 24 * n
            &&& b[0] == 0u8
            &&& b.subrange(1, 5) == u32_le(n as u32)
            &&& b.subrange(5, 5 + 4 * n) == u32s_le(f.xs)
            &&& b.subrange(5 + 4 * n, 5 + 4 * n + 4 * n) == u32s_le(f.ys)
            &&& b.subrange(5 + 8 * n, 5 + 8 * n + 4 * n) == u32s_le(f.zs)
            &&& b.subrange(5 + 12 * n, 5 + 12 * n + 1 * n) == u8s_le(f.r)
            &&& b.subrange(5 + 13 * n, 5 + 13 * n + 1 * n) == u8s_le(f.g)
            &&& b.subrange(5 + 14 * n, 5 + 14 * n + 1 * n) == u8s_le(f.b)
            &&& b.subrange(5 + 15 * n, 5 + 15 * n + 1 * n) == u8s_le(f.a)
            &&& b.subrange(5 + 16 * n, 5 + 16 * n + 2 * n) == u16s_le(f.sizes)
            &&& b.subrange(5 + 18 * n, 5 + 18 * n + 1 * n) == u8s_le(f.tex_ids)
            &&& b.subrange(5 + 19 * n, 5 + 19 * n + 1 * n) == u8s_le(f.seq_indices)
            &&& b.subrange(5 + 20 * n, 5 + 20 * n + 4 * n) == i32s_le(f.ids)
        }),
{
    let b = i_frame_bytes(f);
    let n = f.ids.len();
    lemma_u32s_le_len(f.xs);
    lemma_u32s_le_len(f.ys);
    lemma_u32s_le_len(f.zs);
    lemma_u8s_le_len(f.r);
    lemma_u8s_le_len(f.g);
    lemma_u8s_le_len(f.b);
    lemma_u8s_le_len(f.a);
    lemma_u16s_le_len(f.sizes);
    lemma_u8s_le_len(f.tex_ids);
    lemma_u8s_le_len(f.seq_indices);
    lemma_i32s_le_len(f.ids);
    lemma_u32_roundtrip(n as u32);
    assert(b.subrange((5) as int, (5) as int + 4 * n) =~= u32s_le(f.xs));
    assert(b.subrange((5 + 4 * n) as int, (5 + 4 * n) as int + 4 * n) =~= u32s_le(f.ys));
    assert(b.subrange((5 + 8 * n) as int, (5 + 8 * n) as int + 4 * n) =~= u32s_le(f.zs));
    assert(b.subrange((5 + 12 * n) as int, (5 + 12 * n) as int + 1 * n) =~= u8s_le(f.r));
    assert(b.subrange((5 + 13 * n) as int, (5 + 13 * n) as int + 1 * n) =~= u8s_le(f.g));
    assert(b.subrange((5 + 14 * n) as int, (5 + 14 * n) as int + 1 * n) =~= u8s_le(f.b));
    assert(b.subrange((5 + 15 * n) as int, (5 + 15 * n) as int + 1 * n) =~= u8s_le(f.a));
    assert(b.subrange((5 + 16 * n) as int, (5 + 16 * n) as int + 2 * n) =~= u16s_le(f.sizes));
    assert(b.subrange((5 + 18 * n) as int, (5 + 18 * n) as int + 1 * n) =~= u8s_le(f.tex_ids));
    assert(b.subrange((5 + 19 * n) as int, (5 + 19 * n) as int + 1 * n) =~= u8s_le(f.seq_indices));
    assert(b.subrange((5 + 20 * n) as int, (5 + 20 * n) as int + 4 * n) =~= i32s_le(f.ids));
    assert(b.subrange(1, 5) =~= u32_le(n as u32));
}

/// Decoding an I-frame chunk takes each column from its place in the
/// layout of [`lemma_i_frame_layout`]: the bytes there are the encoding of
/// the column decoded.
pub proof fn lemma_i_frame_fields(b: Seq<u8>)
    requires
        b.len() >= 5,
        b[0] == 0u8,
        b.len() >= 5 + 24 * (u32_at(b, 1) as nat),
    ensures
        chunk_spec(b) matches Ok(FrameView::I(f)) && {
            let n = f.ids.len() as int;
            &&& u32_le(n as u32) == b.subrange(1, 5)
            &&& u32s_le(f.xs) == b.subrange(5, 5 + 4 * n)
            &&& u32s_le(f.ys) == b.subrange(5 + 4 * n, 5 + 4 * n + 4 * n)
            &&& u32s_le(f.zs) == b.subrange(5 + 8 * n, 5 + 8 * n + 4 * n)
            &&& u8s_le(f.r) == b.subrange(5 + 12 * n, 5 + 12 * n + 1 * n)
            &&& u8s_le(f.g) == b.subrange(5 + 13 * n, 5 + 13 * n + 1 * n)
            &&& u8s_le(f.b) == b.subrange(5 + 14 * n, 5 + 14 * n + 1 * n)
            &&& u8s_le(f.a) == b.subrange(5 + 15 * n, 5 + 15 * n + 1 * n)
            &&& u16s_le(f.sizes) == b.subrange(5 + 16 * n, 5 + 16 * n + 2 * n)
            &&& u8s_le(f.tex_ids) == b.subrange(5 + 18 * n, 5 + 18 * n + 1 * n)
            &&& u8s_le(f.seq_indices) == b.subrange(5 + 19 * n, 5 + 19 * n + 1 * n)
            &&& i32s_le(f.ids) == b.subrange(5 + 20 * n, 5 + 20 * n + 4 * n)
        },
{
    let n = u32_at(b, 1) as nat;
    lemma_u32s_le_at(b, (5) as int, n);
    lemma_u32s_le_at(b, (5 + 4 * n) as int, n);
    lemma_u32s_le_at(b, (5 + 8 * n) as int, n);
    lemma_u8s_le_at(b, (5 + 12 * n) as int, n);
    lemma_u8s_le_at(b, (5 + 13 * n) as int, n);
    lemma_u8s_le_at(b, (5 + 14 * n) as int, n);
    lemma_u8s_le_at(b, (5 + 15 * n) as int, n);
    lemma_u16s_le_at(b, (5 + 16 * n) as int, n);
    lemma_u8s_le_at(b, (5 + 18 * n) as int, n);
    lemma_u8s_le_at(b, (5 + 19 * n) as int, n);
    lemma_i32s_le_at(b, (5 + 20 * n) as int, n);
    lemma_u32_le_at(b, 1);
}

/// Where the columns of a P-frame stand in its chunk: the type byte 1, the
/// particle count `n` little-endian at 1, then from byte 5 the `n` x, y
/// and z position deltas (2 bytes each), the red, green, blue and alpha
/// deltas (1 byte each), the size deltas (2 bytes), the texture id and
/// sequence index deltas (1 byte each) and the particle ids (4 bytes).
pub proof fn lemma_p_frame_layout(f: PFrameView)
    requires
        f.wf(),
        f.ids.len() <= u32::MAX,
    ensures
        ({
            let b = p_frame_bytes(f);
            let n = f.ids.len() as int;
            &&& b.len() == 5 + 18 * n
            &&& b[0] == 1u8
            &&& b.subrange(1, 5) == u32_le(n as u32)
            &&& b.subrange(5, 5 + 2 * n) == i16s_le(f.dx)
            &&& b.subrange(5 + 2 * n, 5 + 2 * n + 2 * n) == i16s_le(f.dy)
            &&& b.subrange(5 + 4 * n, 5 + 4 * n + 2 * n) == i16s_le(f.dz)
            &&& b.subrange(5 + 6 * n, 5 + 6 * n + 1 * n) == i8s_le(f.dr)
            &&& b.subrange(5 + 7 * n, 5 + 7 * n + 1 * n) == i8s_le(f.dg)
            &&& b.subrange(5 + 8 * n, 5 + 8 * n + 1 * n) == i8s_le(f.db)
            &&& b.subrange(5 + 9 * n, 5 + 9 * n + 1 * n) == i8s_le(f.da)
            &&& b.subrange(5 + 10 * n, 5 + 10 * n + 2 * n) == i16s_le(f.d_sizes)
            &&& b.subrange(5 + 12 * n, 5 + 12 * n + 1 * n) == i8s_le(f.d_tex)
            &&& b.subrange(5 + 13 * n, 5 + 13 * n + 1 * n) == i8s_le(f.d_seq)
            &&& b.subrange(5 + 14 * n, 5 + 14 * n + 4 * n) == i32s_le(f.ids)
        }),
{
    let b = p_frame_bytes(f);
    let n = f.ids.len();
    lemma_i16s_le_len(f.dx);
    lemma_i16s_le_len(f.dy);
    lemma_i16s_le_len(f.dz);
    lemma_i8s_le_len(f.dr);
    lemma_i8s_le_len(f.dg);
    lemma_i8s_le_len(f.db);
    lemma_i8s_le_len(f.da);
    lemma_i16s_le_len(f.d_sizes);
    lemma_i8s_le_len(f.d_tex);
    lemma_i8s_le_len(f.d_seq);
    lemma_i32s_le_len(f.ids);
    lemma_u32_roundtrip(n as u32);
    assert(b.subrange((5) as int, (5) as int + 2 * n) =~= i16s_le(f.dx));
    assert(b.subrange((5 + 2 * n) as int, (5 + 2 * n) as int + 2 * n) =~= i16s_le(f.dy));
    assert(b.subrange((5 + 4 * n) as int, (5 + 4 * n) as int + 2 * n) =~= i16s_le(f.dz));
    assert(b.subrange((5 + 6 * n) as int, (5 + 6 * n) as int + 1 * n) =~= i8s_le(f.dr));
    assert(b.subrange((5 + 7 * n) as int, (5 + 7 * n) as int + 1 * n) =~= i8s_le(f.dg));
    assert(b.subrange((5 + 8 * n) as int, (5 + 8 * n) as int + 1 * n) =~= i8s_le(f.db));
    assert(b.subrange((5 + 9 * n) as int, (5 + 9 * n) as int + 1 * n) =~= i8s_le(f.da));
    assert(b.subrange((5 + 10 * n) as int, (5 + 10 * n) as int + 2 * n) =~= i16s_le(f.d_sizes));
    assert(b.subrange((5 + 12 * n) as int, (5 + 12 * n) as int + 1 * n) =~= i8s_le(f.d_tex));
    assert(b.subrange((5 + 13 * n) as int, (5 + 13 * n) as int + 1 * n) =~= i8s_le(f.d_seq));
    assert(b.subrange((5 + 14 * n) as int, (5 + 14 * n) as int + 4 * n) =~= i32s_le(f.ids));
    assert(b.subrange(1, 5) =~= u32_le(n as u32));
}

/// Decoding a P-frame chunk takes each column from its place in the
/// layout of [`lemma_p_frame_layout`]: the bytes there are the encoding of
/// the column decoded.
pub proof fn lemma_p_frame_fields(b: Seq<u8>)
    requires
        b.len() >= 5,
        b[0] == 1u8,
        b.len() >= 5 + 18 * (u32_at(b, 1) as nat),
    ensures
        chunk_spec(b) matches Ok(FrameView::P(f)) && {
            let n = f.ids.len() as int;
            &&& u32_le(n as u32) == b.subrange(1, 5)
            &&& i16s_le(f.dx) == b.subrange(5, 5 + 2 * n)
            &&& i16s_le(f.dy) == b.subrange(5 + 2 * n, 5 + 2 * n + 2 * n)
            &&& i16s_le(f.dz) == b.subrange(5 + 4 * n, 5 + 4 * n + 2 * n)
            &&& i8s_le(f.dr) == b.subrange(5 + 6 * n, 5 + 6 * n + 1 * n)
            &&& i8s_le(f.dg) == b.subrange(5 + 7 * n, 5 + 7 * n + 1 * n)
            &&& i8s_le(f.db) == b.subrange(5 + 8 * n, 5 + 8 * n + 1 * n)
            &&& i8s_le(f.da) == b.subrange(5 + 9 * n, 5 + 9 * n + 1 * n)
            &&& i16s_le(f.d_sizes) == b.subrange(5 + 10 * n, 5 + 10 * n + 2 * n)
            &&& i8s_le(f.d_tex) == b.subrange(5 + 12 * n, 5 + 12 * n + 1 * n)
            &&& i8s_le(f.d_seq) == b.subrange(5 + 13 * n, 5 + 13 * n + 1 * n)
            &&& i32s_le(f.ids) == b.subrange(5 + 14 * n, 5 + 14 * n + 4 * n)
        },
{
    let n = u32_at(b, 1) as nat;
    lemma_i16s_le_at(b, (5) as int, n);
    lemma_i16s_le_at(b, (5 + 2 * n) as int, n);
    lemma_i16s_le_at(b, (5 + 4 * n) as int, n);
    lemma_i8s_le_at(b, (5 + 6 * n) as int, n);
    lemma_i8s_le_at(b, (5 + 7 * n) as int, n);
    lemma_i8s_le_at(b, (5 + 8 * n) as int, n);
    lemma_i8s_le_at(b, (5 + 9 * n) as int, n);
    lemma_i16s_le_at(b, (5 + 10 * n) as int, n);
    lemma_i8s_le_at(b, (5 + 12 * n) as int, n);
    lemma_i8s_le_at(b, (5 + 13 * n) as int, n);
    lemma_i32s_le_at(b, (5 + 14 * n) as int, n);
    lemma_u32_le_at(b, 1);
}

/// A decoded chunk has one entry per particle in every column.
pub proof fn lemma_chunk_wf(b: Seq<u8>)
    ensures
        chunk_spec(b) matches Ok(FrameView::I(f)) ==> f.wf(),
        chunk_spec(b) matches Ok(FrameView::P(f)) ==> f.wf(),
{
}

} // verus!

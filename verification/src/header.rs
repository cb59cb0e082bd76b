//! The fixed 48-byte file header and the texture block of an `.nbl` file.
use vstd::prelude::*;
use vstd::utf8::*;
use crate::bytes::{
    lemma_column_push,
    column, copy_range, lemma_u16_le_at, lemma_u32_le_at, lemma_u16_roundtrip, push_bytes, lemma_u32_roundtrip, push_u16, push_u32, read_u16, read_u32,
    u16_at, u16_le, u32_at, u32_le, u32s_le,
};

verus! {

/// Length of the file header in bytes.
pub const HEADER_LEN: usize = 48;

/// The eight ASCII bytes `NEBULAFX` that open every `.nbl` file.
pub open spec fn magic() -> Seq<u8> {
    seq![0x4eu8, 0x45u8, 0x42u8, 0x55u8, 0x4cu8, 0x41u8, 0x46u8, 0x58u8]
}

/// Metadata stored in the file header. The bounding box corners are kept as
/// the bit patterns of the 32-bit floats the format stores.
#[derive(Clone, Copy, Debug)]
pub struct NblHeader {
    pub version: u16,
    pub target_fps: u16,
    pub total_frames: u32,
    pub texture_count: u16,
    pub attributes: u16,
    pub bbox_min: [u32; 3],
    pub bbox_max: [u32; 3],
}

/// The 48 bytes that store `h`: magic, the integer fields, the two corners
/// and four reserved zero bytes.
pub open spec fn header_bytes(h: NblHeader) -> Seq<u8> {
    magic() + u16_le(h.version) + u16_le(h.target_fps) + u32_le(h.total_frames) + u16_le(
        h.texture_count,
    ) + u16_le(h.attributes) + u32s_le(h.bbox_min@) + u32s_le(h.bbox_max@) + seq![
        0u8,
        0u8,
        0u8,
        0u8,
    ]
}

/// The header whose fields are stored in the first 44 bytes of `b`.
pub open spec fn header_at(b: Seq<u8>) -> NblHeader {
    NblHeader {
        version: u16_at(b, 8),
        target_fps: u16_at(b, 10),
        total_frames: u32_at(b, 12),
        texture_count: u16_at(b, 16),
        attributes: u16_at(b, 18),
        bbox_min: [u32_at(b, 20), u32_at(b, 24), u32_at(b, 28)],
        bbox_max: [u32_at(b, 32), u32_at(b, 36), u32_at(b, 40)],
    }
}

/// Whether `b` starts with the magic bytes.
pub open spec fn has_magic(b: Seq<u8>) -> bool {
    b.len() >= 8 && b.subrange(0, 8) == magic()
}

/// Appends the 48 header bytes of `h`.
pub fn push_header(buf: &mut Vec<u8>, h: &NblHeader)
    ensures
        final(buf)@ == old(buf)@ + header_bytes(*h),
{
    let ghost start = buf@;
    buf.push(0x4e);
    buf.push(0x45);
    buf.push(0x42);
    buf.push(0x55);
    buf.push(0x4c);
    buf.push(0x41);
    buf.push(0x46);
    buf.push(0x58);
    assert(buf@ =~= start + magic());
    push_u16(buf, h.version);
    push_u16(buf, h.target_fps);
    push_u32(buf, h.total_frames);
    push_u16(buf, h.texture_count);
    push_u16(buf, h.attributes);
    let ghost mid = buf@;
    push_u32(buf, h.bbox_min[0]);
    push_u32(buf, h.bbox_min[1]);
    push_u32(buf, h.bbox_min[2]);
    push_u32(buf, h.bbox_max[0]);
    push_u32(buf, h.bbox_max[1]);
    push_u32(buf, h.bbox_max[2]);
    buf.push(0);
    buf.push(0);
    buf.push(0);
    buf.push(0);
    proof {
        lemma_corners_le(h.bbox_min);
        lemma_corners_le(h.bbox_max);
    }
    assert(buf@ =~= start + header_bytes(*h));
}

proof fn lemma_corners_le(c: [u32; 3])
    ensures
        u32s_le(c@) == u32_le(c[0]) + u32_le(c[1]) + u32_le(c[2]),
{
    let s = c@;
    let enc = |v: u32| u32_le(v);
    assert(s.drop_last().drop_last().drop_last() =~= Seq::<u32>::empty());
    assert(s.drop_last().drop_last() =~= seq![c[0]]);
    assert(s.drop_last() =~= seq![c[0], c[1]]);
    reveal_with_fuel(column, 4);
    assert(column(seq![c[0]], enc) =~= u32_le(c[0]));
}

/// Reads the header stored at the start of `b`.
pub fn read_header(b: &[u8]) -> (h: NblHeader)
    requires
        b@.len() >= HEADER_LEN,
    ensures
        h == header_at(b@),
{
    NblHeader {
        version: read_u16(b, 8),
        target_fps: read_u16(b, 10),
        total_frames: read_u32(b, 12),
        texture_count: read_u16(b, 16),
        attributes: read_u16(b, 18),
        bbox_min: [read_u32(b, 20), read_u32(b, 24), read_u32(b, 28)],
        bbox_max: [read_u32(b, 32), read_u32(b, 36), read_u32(b, 40)],
    }
}

/// Whether `b` starts with the magic bytes.
pub fn check_magic(b: &[u8]) -> (ok: bool)
    requires
        b@.len() >= 8,
    ensures
        ok == has_magic(b@),
{
    let ok = b[0] == 0x4e && b[1] == 0x45 && b[2] == 0x42 && b[3] == 0x55 && b[4] == 0x4c && b[5]
        == 0x41 && b[6] == 0x46 && b[7] == 0x58;
    assert(ok ==> b@.subrange(0, 8) =~= magic());
    ok
}

/// Reading back the bytes of a header gives the header.
pub proof fn lemma_header_roundtrip(h: NblHeader, rest: Seq<u8>)
    ensures
        header_bytes(h).len() == HEADER_LEN,
        has_magic(header_bytes(h) + rest),
        header_at(header_bytes(h) + rest) == h,
{
    let b = header_bytes(h) + rest;
    lemma_u16_roundtrip(h.version);
    lemma_u16_roundtrip(h.target_fps);
    lemma_u32_roundtrip(h.total_frames);
    lemma_u16_roundtrip(h.texture_count);
    lemma_u16_roundtrip(h.attributes);
    lemma_corners_le(h.bbox_min);
    lemma_corners_le(h.bbox_max);
    lemma_u32_roundtrip(h.bbox_min[0]);
    lemma_u32_roundtrip(h.bbox_min[1]);
    lemma_u32_roundtrip(h.bbox_min[2]);
    lemma_u32_roundtrip(h.bbox_max[0]);
    lemma_u32_roundtrip(h.bbox_max[1]);
    lemma_u32_roundtrip(h.bbox_max[2]);
    assert(b.subrange(0, 8) =~= magic());
    assert(b.subrange(8, 10) =~= u16_le(h.version));
    assert(b.subrange(10, 12) =~= u16_le(h.target_fps));
    assert(b.subrange(12, 16) =~= u32_le(h.total_frames));
    assert(b.subrange(16, 18) =~= u16_le(h.texture_count));
    assert(b.subrange(18, 20) =~= u16_le(h.attributes));
    assert(b.subrange(20, 24) =~= u32_le(h.bbox_min[0]));
    assert(b.subrange(24, 28) =~= u32_le(h.bbox_min[1]));
    assert(b.subrange(28, 32) =~= u32_le(h.bbox_min[2]));
    assert(b.subrange(32, 36) =~= u32_le(h.bbox_max[0]));
    assert(b.subrange(36, 40) =~= u32_le(h.bbox_max[1]));
    assert(b.subrange(40, 44) =~= u32_le(h.bbox_max[2]));
    assert(u16_le(h.version).subrange(0, 2) =~= u16_le(h.version));
    assert(u16_le(h.target_fps).subrange(0, 2) =~= u16_le(h.target_fps));
    assert(u32_le(h.total_frames).subrange(0, 4) =~= u32_le(h.total_frames));
    assert(u16_le(h.texture_count).subrange(0, 2) =~= u16_le(h.texture_count));
    assert(u16_le(h.attributes).subrange(0, 2) =~= u16_le(h.attributes));
    assert(u16_at(b, 8) == h.version);
    assert(u16_at(b, 10) == h.target_fps);
    assert(u32_at(b, 12) == h.total_frames);
    assert(u16_at(b, 16) == h.texture_count);
    assert(u16_at(b, 18) == h.attributes);
    assert(u32_le(h.bbox_min[0]).subrange(0, 4) =~= u32_le(h.bbox_min[0]));
    assert(u32_le(h.bbox_min[1]).subrange(0, 4) =~= u32_le(h.bbox_min[1]));
    assert(u32_le(h.bbox_min[2]).subrange(0, 4) =~= u32_le(h.bbox_min[2]));
    assert(u32_le(h.bbox_max[0]).subrange(0, 4) =~= u32_le(h.bbox_max[0]));
    assert(u32_le(h.bbox_max[1]).subrange(0, 4) =~= u32_le(h.bbox_max[1]));
    assert(u32_le(h.bbox_max[2]).subrange(0, 4) =~= u32_le(h.bbox_max[2]));
    assert(u32_at(b, 20) == h.bbox_min[0]);
    assert(u32_at(b, 24) == h.bbox_min[1]);
    assert(u32_at(b, 28) == h.bbox_min[2]);
    assert(u32_at(b, 32) == h.bbox_max[0]);
    assert(u32_at(b, 36) == h.bbox_max[1]);
    assert(u32_at(b, 40) == h.bbox_max[2]);
    assert(header_at(b).bbox_min@ =~= h.bbox_min@);
    assert(header_at(b).bbox_max@ =~= h.bbox_max@);
    assert(header_at(b).bbox_min =~= h.bbox_min);
    assert(header_at(b).bbox_max =~= h.bbox_max);
}


/// Where the fields of a header stand in its 48 bytes: the ASCII magic
/// `NEBULAFX` at 0x00, then little-endian the version at 0x08, the target
/// frame rate at 0x0A, the frame count at 0x0C, the texture count at 0x10,
/// the attributes at 0x12, the x, y and z of the minimum corner from 0x14,
/// those of the maximum corner from 0x20, and four zero bytes at 0x2C.
pub proof fn lemma_header_layout(h: NblHeader)
    ensures
        header_bytes(h).len() == 48,
        header_bytes(h).subrange(0, 8) == seq![
            0x4eu8, 0x45u8, 0x42u8, 0x55u8, 0x4cu8, 0x41u8, 0x46u8, 0x58u8
        ],
        header_bytes(h).subrange(8, 10) == u16_le(h.version),
        header_bytes(h).subrange(10, 12) == u16_le(h.target_fps),
        header_bytes(h).subrange(12, 16) == u32_le(h.total_frames),
        header_bytes(h).subrange(16, 18) == u16_le(h.texture_count),
        header_bytes(h).subrange(18, 20) == u16_le(h.attributes),
        header_bytes(h).subrange(20, 24) == u32_le(h.bbox_min[0]),
        header_bytes(h).subrange(24, 28) == u32_le(h.bbox_min[1]),
        header_bytes(h).subrange(28, 32) == u32_le(h.bbox_min[2]),
        header_bytes(h).subrange(32, 36) == u32_le(h.bbox_max[0]),
        header_bytes(h).subrange(36, 40) == u32_le(h.bbox_max[1]),
        header_bytes(h).subrange(40, 44) == u32_le(h.bbox_max[2]),
        header_bytes(h).subrange(44, 48) == seq![0u8, 0u8, 0u8, 0u8],
{
    let b = header_bytes(h);
    lemma_u16_roundtrip(h.version);
    lemma_u16_roundtrip(h.target_fps);
    lemma_u32_roundtrip(h.total_frames);
    lemma_u16_roundtrip(h.texture_count);
    lemma_u16_roundtrip(h.attributes);
    lemma_corners_le(h.bbox_min);
    lemma_corners_le(h.bbox_max);
    lemma_u32_roundtrip(h.bbox_min[0]);
    lemma_u32_roundtrip(h.bbox_min[1]);
    lemma_u32_roundtrip(h.bbox_min[2]);
    lemma_u32_roundtrip(h.bbox_max[0]);
    lemma_u32_roundtrip(h.bbox_max[1]);
    lemma_u32_roundtrip(h.bbox_max[2]);
    assert(b.subrange(0, 8) =~= magic());
    assert(b.subrange(8, 10) =~= u16_le(h.version));
    assert(b.subrange(10, 12) =~= u16_le(h.target_fps));
    assert(b.subrange(12, 16) =~= u32_le(h.total_frames));
    assert(b.subrange(16, 18) =~= u16_le(h.texture_count));
    assert(b.subrange(18, 20) =~= u16_le(h.attributes));
    assert(b.subrange(20, 24) =~= u32_le(h.bbox_min[0]));
    assert(b.subrange(24, 28) =~= u32_le(h.bbox_min[1]));
    assert(b.subrange(28, 32) =~= u32_le(h.bbox_min[2]));
    assert(b.subrange(32, 36) =~= u32_le(h.bbox_max[0]));
    assert(b.subrange(36, 40) =~= u32_le(h.bbox_max[1]));
    assert(b.subrange(40, 44) =~= u32_le(h.bbox_max[2]));
    assert(b.subrange(44, 48) =~= seq![0u8, 0u8, 0u8, 0u8]);
}

/// Reading a header takes each field from its place in the layout of
/// [`lemma_header_layout`]: the bytes there are the little-endian encoding
/// of the field read.
pub proof fn lemma_header_fields(b: Seq<u8>)
    requires
        b.len() >= 48,
    ensures
        u16_le(header_at(b).version) == b.subrange(8, 10),
        u16_le(header_at(b).target_fps) == b.subrange(10, 12),
        u32_le(header_at(b).total_frames) == b.subrange(12, 16),
        u16_le(header_at(b).texture_count) == b.subrange(16, 18),
        u16_le(header_at(b).attributes) == b.subrange(18, 20),
        u32_le(header_at(b).bbox_min[0]) == b.subrange(20, 24),
        u32_le(header_at(b).bbox_min[1]) == b.subrange(24, 28),
        u32_le(header_at(b).bbox_min[2]) == b.subrange(28, 32),
        u32_le(header_at(b).bbox_max[0]) == b.subrange(32, 36),
        u32_le(header_at(b).bbox_max[1]) == b.subrange(36, 40),
        u32_le(header_at(b).bbox_max[2]) == b.subrange(40, 44),
{
    lemma_u16_le_at(b, 8);
    lemma_u16_le_at(b, 10);
    lemma_u32_le_at(b, 12);
    lemma_u16_le_at(b, 16);
    lemma_u16_le_at(b, 18);
    lemma_u32_le_at(b, 20);
    lemma_u32_le_at(b, 24);
    lemma_u32_le_at(b, 28);
    lemma_u32_le_at(b, 32);
    lemma_u32_le_at(b, 36);
    lemma_u32_le_at(b, 40);
}

/// One entry of the texture block: a texture path and the rows and columns
/// of its animation sheet.
#[derive(Clone, Debug)]
pub struct TextureEntry {
    pub path: String,
    pub rows: u8,
    pub cols: u8,
}

/// The mathematical content of a [`TextureEntry`].
#[verifier::ext_equal]
pub struct TextureView {
    pub path: Seq<char>,
    pub rows: u8,
    pub cols: u8,
}

impl View for TextureEntry {
    type V = TextureView;

    open spec fn view(&self) -> TextureView {
        TextureView { path: self.path@, rows: self.rows, cols: self.cols }
    }
}

/// The views of a list of texture entries.
pub open spec fn texture_views(ts: Seq<TextureEntry>) -> Seq<TextureView> {
    ts.map_values(|t: TextureEntry| t@)
}

/// The text that stands for a texture path whose bytes are not UTF-8.
pub open spec fn invalid_path_text() -> Seq<char> {
    seq!['I', 'n', 'v', 'a', 'l', 'i', 'd', ' ', 'U', 'T', 'F', '8']
}

/// The path that the stored bytes `p` name.
pub open spec fn path_text(p: Seq<u8>) -> Seq<char> {
    if valid_utf8(p) {
        decode_utf8(p)
    } else {
        invalid_path_text()
    }
}

/// The bytes of one texture entry: the path length as a `u16` (the low 16
/// bits of the byte length), the UTF-8 path, rows, columns.
pub open spec fn texture_bytes(t: TextureView) -> Seq<u8> {
    let p = encode_utf8(t.path);
    u16_le((p.len() % 65536) as u16) + p + seq![t.rows, t.cols]
}

/// Where the parts of a texture entry stand: the byte length `l` of the
/// UTF-8 path little-endian in the first two bytes (its low 16 bits), the
/// path bytes from byte 2, then the rows at `2 + l` and the columns at
/// `3 + l`.
pub proof fn lemma_texture_layout(t: TextureView)
    ensures
        ({
            let p = encode_utf8(t.path);
            let e = texture_bytes(t);
            &&& e.len() == p.len() + 4
            &&& e.subrange(0, 2) == u16_le((p.len() % 65536) as u16)
            &&& e.subrange(2, 2 + p.len() as int) == p
            &&& e[2 + p.len() as int] == t.rows
            &&& e[3 + p.len() as int] == t.cols
        }),
{
    let p = encode_utf8(t.path);
    let e = texture_bytes(t);
    lemma_u16_roundtrip((p.len() % 65536) as u16);
    assert(e.subrange(0, 2) =~= u16_le((p.len() % 65536) as u16));
    assert(e.subrange(2, 2 + p.len() as int) =~= p);
}

/// Reading a texture entry at `off`: the first two bytes give the byte
/// length `l` of the path, the `l` bytes after them are the path, and the
/// two bytes after the path are the rows and then the columns; the next
/// entry starts after them.
pub proof fn lemma_texture_fields(b: Seq<u8>, off: int)
    requires
        0 <= off,
        off + 2 <= b.len(),
        off + 4 + u16_at(b, off) <= b.len(),
    ensures
        texture_at(b, off) matches Some((t, next)) && {
            let l = next - off - 4;
            &&& 0 <= l < 65536
            &&& u16_le(l as u16) == b.subrange(off, off + 2)
            &&& t.path == path_text(b.subrange(off + 2, off + 2 + l))
            &&& t.rows == b[off + 2 + l]
            &&& t.cols == b[off + 3 + l]
        },
{
    lemma_u16_le_at(b, off);
}

/// The texture block made of the entries `ts`, in order.
pub open spec fn textures_bytes(ts: Seq<TextureView>) -> Seq<u8> {
    column(ts, |t: TextureView| texture_bytes(t))
}

/// The entry stored at `off` in `b` and the offset just past it, if `b`
/// holds a whole entry there.
pub open spec fn texture_at(b: Seq<u8>, off: int) -> Option<(TextureView, int)> {
    if off + 2 > b.len() {
        None
    } else {
        let l = u16_at(b, off) as int;
        if off + 2 + l + 2 > b.len() {
            None
        } else {
            Some(
                (
                    TextureView {
                        path: path_text(b.subrange(off + 2, off + 2 + l)),
                        rows: b[off + 2 + l],
                        cols: b[off + 3 + l],
                    },
                    off + 4 + l,
                ),
            )
        }
    }
}

/// The `n` entries stored one after another from `off`, and the offset just
/// past the last one, if `b` holds all of them.
pub open spec fn textures_at(b: Seq<u8>, off: int, n: nat) -> Option<(Seq<TextureView>, int)>
    decreases n,
{
    if n == 0 {
        Some((Seq::empty(), off))
    } else {
        match textures_at(b, off, (n - 1) as nat) {
            None => None,
            Some((ts, p)) => match texture_at(b, p) {
                None => None,
                Some((t, q)) => Some((ts.push(t), q)),
            },
        }
    }
}

/// Wraps std's `String::from_utf8`. The contract claims what std documents:
/// a `String` comes back exactly when the bytes are valid UTF-8, and it
/// holds the characters they encode.
#[verifier::external_body]
fn string_from_utf8(bytes: Vec<u8>) -> (r: Option<String>)
    ensures
        r is Some <==> valid_utf8(bytes@),
        r matches Some(s) ==> s@ == decode_utf8(bytes@),
{
    String::from_utf8(bytes).ok()
}

/// Reads the texture entry stored at `off`, if `b` holds a whole one.
pub fn read_texture(b: &[u8], off: usize) -> (r: Option<(TextureEntry, usize)>)
    requires
        off <= b@.len(),
    ensures
        match r {
            None => texture_at(b@, off as int) is None,
            Some((t, q)) => texture_at(b@, off as int) == Some((t@, q as int)),
        },
{
    let len = b.len();
    if len - off < 2 {
        return None;
    }
    let l = read_u16(b, off) as usize;
    if len - off - 2 < l + 2 {
        return None;
    }
    let bytes = copy_range(b, off + 2, off + 2 + l);
    let path = match string_from_utf8(bytes) {
        Some(s) => s,
        None => {
            let s = "Invalid UTF8".to_owned();
            proof {
                reveal_strlit("Invalid UTF8");
            }
            assert(s@ =~= invalid_path_text());
            s
        },
    };
    let t = TextureEntry { path, rows: b[off + 2 + l], cols: b[off + 3 + l] };
    Some((t, off + 4 + l))
}

/// Reads `n` texture entries stored one after another from `off`.
pub fn read_textures(b: &[u8], off: usize, n: u16) -> (r: Option<(Vec<TextureEntry>, usize)>)
    requires
        off <= b@.len(),
    ensures
        match r {
            None => textures_at(b@, off as int, n as nat) is None,
            Some((ts, q)) => textures_at(b@, off as int, n as nat) == Some(
                (texture_views(ts@), q as int),
            ),
        },
{
    let mut ts: Vec<TextureEntry> = Vec::new();
    let mut p: usize = off;
    let mut i: u16 = 0;
    while i < n
        invariant
            i <= n,
            off <= p <= b@.len(),
            textures_at(b@, off as int, i as nat) == Some((texture_views(ts@), p as int)),
        decreases n - i,
    {
        match read_texture(b, p) {
            None => {
                proof {
                    lemma_textures_at_none_grows(b@, off as int, (i + 1) as nat, n as nat);
                }
                return None;
            },
            Some((t, q)) => {
                let ghost old_ts = ts@;
                ts.push(t);
                assert(texture_views(ts@) =~= texture_views(old_ts).push(t@));
                p = q;
                i = i + 1;
            },
        }
    }
    Some((ts, p))
}

/// Once a prefix of the block is missing, every longer block is missing too.
pub proof fn lemma_textures_at_none_grows(b: Seq<u8>, off: int, m: nat, n: nat)
    requires
        m <= n,
        textures_at(b, off, m) is None,
    ensures
        textures_at(b, off, n) is None,
    decreases n,
{
    if n > m {
        lemma_textures_at_none_grows(b, off, m, (n - 1) as nat);
    }
}

/// Appends the bytes of one texture entry.
pub fn push_texture(buf: &mut Vec<u8>, t: &TextureEntry)
    ensures
        final(buf)@ == old(buf)@ + texture_bytes(t@),
{
    let pb = t.path.as_str().as_bytes();
    push_u16(buf, (pb.len() % 65536) as u16);
    push_bytes(buf, pb);
    buf.push(t.rows);
    buf.push(t.cols);
    assert(buf@ =~= old(buf)@ + texture_bytes(t@));
}

/// Appends the texture block made of `ts`.
pub fn push_textures(buf: &mut Vec<u8>, ts: &Vec<TextureEntry>)
    ensures
        final(buf)@ == old(buf)@ + textures_bytes(texture_views(ts@)),
{
    let mut i: usize = 0;
    while i < ts.len()
        invariant
            i <= ts@.len(),
            buf@ == old(buf)@ + textures_bytes(texture_views(ts@.take(i as int))),
        decreases ts@.len() - i,
    {
        let ghost pre = texture_views(ts@.take(i as int));
        push_texture(buf, &ts[i]);
        proof {
            lemma_column_push(pre, ts@[i as int]@, |t: TextureView| texture_bytes(t));
            assert(texture_views(ts@.take(i + 1)) =~= pre.push(ts@[i as int]@));
        }
        i = i + 1;
    }
    assert(ts@.take(ts@.len() as int) =~= ts@);
}

/// Byte length of the texture block made of `ts`.
pub open spec fn textures_len(ts: Seq<TextureView>) -> nat {
    textures_bytes(ts).len()
}

/// Byte length of the texture block: two length bytes, the path and two
/// bytes of rows and columns per entry.
pub fn texture_block_len(ts: &Vec<TextureEntry>) -> (n: usize)
    requires
        textures_len(texture_views(ts@)) <= usize::MAX,
    ensures
        n == textures_len(texture_views(ts@)),
{
    let mut n: usize = 0;
    let mut i: usize = 0;
    while i < ts.len()
        invariant
            i <= ts@.len(),
            n == textures_len(texture_views(ts@.take(i as int))),
            textures_len(texture_views(ts@)) <= usize::MAX,
        decreases ts@.len() - i,
    {
        let ghost pre = texture_views(ts@.take(i as int));
        let pb = ts[i].path.as_str().as_bytes();
        proof {
            lemma_column_push(pre, ts@[i as int]@, |t: TextureView| texture_bytes(t));
            assert(texture_views(ts@.take(i + 1)) =~= pre.push(ts@[i as int]@));
            lemma_u16_roundtrip((pb@.len() % 65536) as u16);
            lemma_textures_len_prefix(texture_views(ts@), i as int + 1);
            assert(texture_views(ts@).take(i + 1) =~= texture_views(ts@.take(i + 1)));
            assert(texture_bytes(ts@[i as int]@).len() == 2 + pb@.len() + 2);
            assert(textures_len(texture_views(ts@.take(i + 1))) == n + 2 + pb@.len() + 2);
        }
        n = n + 2 + pb.len() + 2;
        i = i + 1;
    }
    assert(ts@.take(ts@.len() as int) =~= ts@);
    n
}

/// A prefix of a block is no longer than the block.
pub proof fn lemma_textures_len_prefix(ts: Seq<TextureView>, k: int)
    requires
        0 <= k <= ts.len(),
    ensures
        textures_len(ts.take(k)) <= textures_len(ts),
    decreases ts.len(),
{
    if k < ts.len() {
        assert(ts.drop_last().take(k) =~= ts.take(k));
        lemma_textures_len_prefix(ts.drop_last(), k);
    } else {
        assert(ts.take(k) =~= ts);
    }
}


/// Every path of `ts` is at most 65535 bytes long in UTF-8, so that its
/// length fits the `u16` length field.
pub open spec fn paths_fit(ts: Seq<TextureView>) -> bool {
    forall|i: int| 0 <= i < ts.len() ==> #[trigger] encode_utf8(ts[i].path).len() <= 65535
}

/// Reading back a written texture block gives the entries back.
pub proof fn lemma_textures_roundtrip(ts: Seq<TextureView>, pre: Seq<u8>, rest: Seq<u8>)
    requires
        paths_fit(ts),
    ensures
        textures_at(pre + textures_bytes(ts) + rest, pre.len() as int, ts.len()) == Some(
            (ts, (pre.len() + textures_len(ts)) as int),
        ),
    decreases ts.len(),
{
    broadcast use encode_utf8_valid_utf8, encode_utf8_decode_utf8;

    let b = pre + textures_bytes(ts) + rest;
    if ts.len() == 0 {
        assert(ts =~= Seq::<TextureView>::empty());
    } else {
        let init = ts.drop_last();
        let t = ts.last();
        let tb = texture_bytes(t);
        assert(paths_fit(init)) by {
            assert forall|i: int| 0 <= i < init.len() implies #[trigger] encode_utf8(
                init[i].path,
            ).len() <= 65535 by {
                assert(init[i] == ts[i]);
            }
        }
        assert(b =~= pre + textures_bytes(init) + (tb + rest));
        lemma_textures_roundtrip(init, pre, tb + rest);
        let p: int = (pre.len() + textures_len(init)) as int;
        let pb = encode_utf8(t.path);
        assert(encode_utf8(ts[ts.len() - 1].path).len() <= 65535);
        let l: int = pb.len() as int;
        lemma_u16_roundtrip(l as u16);
        assert(b.subrange(p, p + 2) =~= u16_le(l as u16));
        assert(u16_le(l as u16).subrange(0, 2) =~= u16_le(l as u16));
        assert(u16_at(b, p) == l as u16);
        assert(b.subrange(p + 2, p + 2 + l) =~= pb);
        assert(b[p + 2 + l] == t.rows);
        assert(b[p + 3 + l] == t.cols);
        assert(init.push(t) =~= ts);
        assert(textures_len(ts) == textures_len(init) + tb.len());
    }
}


/// Byte length of the texture block, or `None` when it does not fit in a
/// `usize`.
pub fn texture_block_len_checked(ts: &Vec<TextureEntry>) -> (r: Option<usize>)
    ensures
        match r {
            Some(n) => n == textures_len(texture_views(ts@)),
            None => textures_len(texture_views(ts@)) > usize::MAX,
        },
{
    let mut n: usize = 0;
    let mut i: usize = 0;
    while i < ts.len()
        invariant
            i <= ts@.len(),
            n == textures_len(texture_views(ts@.take(i as int))),
        decreases ts@.len() - i,
    {
        let ghost pre = texture_views(ts@.take(i as int));
        let pb = ts[i].path.as_str().as_bytes();
        proof {
            lemma_column_push(pre, ts@[i as int]@, |t: TextureView| texture_bytes(t));
            assert(texture_views(ts@.take(i + 1)) =~= pre.push(ts@[i as int]@));
            lemma_u16_roundtrip((pb@.len() % 65536) as u16);
            lemma_textures_len_prefix(texture_views(ts@), i as int + 1);
            assert(texture_views(ts@).take(i + 1) =~= texture_views(ts@.take(i + 1)));
            assert(texture_bytes(ts@[i as int]@).len() == 2 + pb@.len() + 2);
        }
        if pb.len() > usize::MAX - 4 || n > usize::MAX - 4 - pb.len() {
            return None;
        }
        n = n + 2 + pb.len() + 2;
        i = i + 1;
    }
    assert(ts@.take(ts@.len() as int) =~= ts@);
    Some(n)
}

} // verus!

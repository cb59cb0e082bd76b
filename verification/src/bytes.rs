//! Little-endian integer codecs used by every block of the `.nbl` format.
use vstd::prelude::*;

verus! {

/// `256^w`.
pub open spec fn pow256(w: nat) -> nat
    decreases w,
{
    if w == 0 {
        1
    } else {
        256 * pow256((w - 1) as nat)
    }
}

/// The `w` low bytes of `v`, least significant first.
pub open spec fn le_bytes(v: nat, w: nat) -> Seq<u8>
    decreases w,
{
    if w == 0 {
        Seq::empty()
    } else {
        seq![(v % 256) as u8] + le_bytes(v / 256, (w - 1) as nat)
    }
}

/// The number that the bytes `b` spell, least significant first.
pub open spec fn le_value(b: Seq<u8>) -> nat
    decreases b.len(),
{
    if b.len() == 0 {
        0
    } else {
        b[0] as nat + 256 * le_value(b.drop_first())
    }
}

/// The little-endian encoding of `v` in `w` bytes has `w` bytes.
pub proof fn lemma_le_bytes_len(v: nat, w: nat)
    ensures
        le_bytes(v, w).len() == w,
    decreases w,
{
    if w > 0 {
        lemma_le_bytes_len(v / 256, (w - 1) as nat);
    }
}

/// Reading back the `w` little-endian bytes of a `v` that fits gives `v`.
pub proof fn lemma_le_value_of_bytes(v: nat, w: nat)
    requires
        v < pow256(w),
    ensures
        le_value(le_bytes(v, w)) == v,
    decreases w,
{
    if w > 0 {
        let rest = le_bytes(v / 256, (w - 1) as nat);
        assert(v / 256 < pow256((w - 1) as nat));
        lemma_le_value_of_bytes(v / 256, (w - 1) as nat);
        assert((seq![(v % 256) as u8] + rest).drop_first() =~= rest);
    }
}

/// Any bytes are the little-endian encoding of the value they spell.
pub proof fn lemma_le_bytes_of_value(b: Seq<u8>)
    ensures
        le_value(b) < pow256(b.len()),
        le_bytes(le_value(b), b.len()) == b,
    decreases b.len(),
{
    if b.len() > 0 {
        let t = b.drop_first();
        lemma_le_bytes_of_value(t);
        let v = le_value(b);
        assert(v % 256 == b[0] as nat);
        assert(v / 256 == le_value(t));
        assert(b =~= seq![(v % 256) as u8] + le_bytes(v / 256, t.len()));
    }
}


/// The bytes of `s`, each element encoded by `enc`, one after another.
pub open spec fn column<T>(s: Seq<T>, enc: spec_fn(T) -> Seq<u8>) -> Seq<u8>
    decreases s.len(),
{
    if s.len() == 0 {
        Seq::empty()
    } else {
        column(s.drop_last(), enc) + enc(s.last())
    }
}

/// Every value is encoded by `enc` in exactly `w` bytes.
pub open spec fn fixed_width<T>(enc: spec_fn(T) -> Seq<u8>, w: nat) -> bool {
    forall|x: T| #[trigger] enc(x).len() == w
}

/// A column of fixed-width encodings takes `w` bytes per element.
pub proof fn lemma_column_len<T>(s: Seq<T>, enc: spec_fn(T) -> Seq<u8>, w: nat)
    requires
        fixed_width(enc, w),
    ensures
        column(s, enc).len() == w * s.len(),
    decreases s.len(),
{
    if s.len() > 0 {
        lemma_column_len(s.drop_last(), enc, w);
        assert(enc(s.last()).len() == w);
        assert(w * (s.len() - 1) + w == w * s.len()) by (nonlinear_arith);
    }
}

/// Element `i` of a fixed-width column is stored at `w * i`.
pub proof fn lemma_column_chunk<T>(s: Seq<T>, enc: spec_fn(T) -> Seq<u8>, w: nat, i: int)
    requires
        fixed_width(enc, w),
        0 <= i < s.len(),
    ensures
        column(s, enc).subrange(w * i, w * i + w) == enc(s[i]),
    decreases s.len(),
{
    let init = s.drop_last();
    lemma_column_len(init, enc, w);
    assert(enc(s.last()).len() == w);
    assert(enc(s[i]).len() == w);
    if i == s.len() - 1 {
        assert(w * i == w * init.len());
        assert(column(s, enc).subrange(w * i, w * i + w) =~= enc(s.last()));
    } else {
        lemma_column_chunk(init, enc, w, i);
        assert(w * i + w <= w * init.len()) by (nonlinear_arith)
            requires
                i + 1 <= init.len(),
        ;
        assert(column(s, enc).subrange(w * i, w * i + w) =~= column(init, enc).subrange(
            w * i,
            w * i + w,
        ));
    }
}

/// Appending one more element to a column appends its encoding.
pub proof fn lemma_column_push<T>(s: Seq<T>, x: T, enc: spec_fn(T) -> Seq<u8>)
    ensures
        column(s.push(x), enc) == column(s, enc) + enc(x),
{
    assert(s.push(x).drop_last() =~= s);
}

/// The powers of 256 that the integer widths use.
pub proof fn lemma_pow256_bounds()
    ensures
        pow256(1) == 256,
        pow256(2) == 65536,
        pow256(4) == 4294967296,
        pow256(7) == 72057594037927936,
        pow256(8) == 18446744073709551616,
{
    reveal_with_fuel(pow256, 9);
}

/// Powers of 256 grow with the exponent.
pub proof fn lemma_pow256_mono(a: nat, b: nat)
    requires
        a <= b,
    ensures
        pow256(a) <= pow256(b),
    decreases b,
{
    if a < b {
        lemma_pow256_mono(a, (b - 1) as nat);
    }
}

/// The little-endian number stored in `b[off..off + w]`.
pub fn read_le(b: &[u8], off: usize, w: usize) -> (v: u64)
    requires
        w <= 8,
        off + w <= b@.len(),
    ensures
        v == le_value(b@.subrange(off as int, off + w)),
{
    let len = b.len();
    let mut k: usize = w;
    let mut acc: u64 = 0;
    proof {
        lemma_pow256_bounds();
    }
    while k > 0
        invariant
            w <= 8,
            off + w <= b@.len(),
            len == b@.len(),
            k <= w,
            acc == le_value(b@.subrange(off + k, off + w)),
            pow256(7) == 72057594037927936,
        decreases k,
    {
        let ghost tail = b@.subrange(off + k, off + w);
        proof {
            lemma_le_bytes_of_value(tail);
            lemma_pow256_mono((w - k) as nat, 7);
        }
        k = k - 1;
        let byte = b[off + k];
        let ghost sub = b@.subrange(off + k, off + w);
        assert(sub.drop_first() =~= tail);
        acc = (byte as u64) + acc * 256;
    }
    acc
}

/// Appends the `w` low bytes of `v`, least significant first.
pub fn push_le(buf: &mut Vec<u8>, v: u64, w: usize)
    ensures
        final(buf)@ == old(buf)@ + le_bytes(v as nat, w as nat),
{
    let mut x: u64 = v;
    let mut k: usize = 0;
    while k < w
        invariant
            k <= w,
            old(buf)@ + le_bytes(v as nat, w as nat) == buf@ + le_bytes(x as nat, (w - k) as nat),
        decreases w - k,
    {
        let ghost rest = le_bytes(x as nat, (w - k) as nat);
        assert(rest == seq![(x % 256) as u8] + le_bytes((x / 256) as nat, (w - k - 1) as nat));
        buf.push((x % 256) as u8);
        x = x / 256;
        k = k + 1;
    }
    assert(le_bytes(x as nat, 0) =~= Seq::<u8>::empty());
    assert(buf@ + Seq::<u8>::empty() =~= buf@);
}

/// The 1-byte little-endian encoding of `v`.
pub open spec fn u8_le(v: u8) -> Seq<u8> {
    le_bytes(v as nat, 1)
}

/// The `u8` stored little-endian at `off` in `b`.
pub open spec fn u8_at(b: Seq<u8>, off: int) -> u8 {
    le_value(b.subrange(off, off + 1)) as u8
}

/// The `u8` values of `s`, each encoded by [`u8_le`], one after another.
pub open spec fn u8s_le(s: Seq<u8>) -> Seq<u8> {
    column(s, |v: u8| u8_le(v))
}

/// The `n` consecutive `u8` values stored from `off` in `b`.
pub open spec fn u8s_at(b: Seq<u8>, off: int, n: nat) -> Seq<u8> {
    Seq::new(n, |i: int| u8_at(b, off + 1 * i))
}

/// The unsigned number whose low 8 bits are the two's complement of `v`.
pub open spec fn i8_bits(v: i8) -> nat {
    if v < 0 { (v + 256) as nat } else { v as nat }
}

/// The 1-byte little-endian encoding of `v`.
pub open spec fn i8_le(v: i8) -> Seq<u8> {
    le_bytes(i8_bits(v), 1)
}

/// The `i8` stored little-endian at `off` in `b`.
pub open spec fn i8_at(b: Seq<u8>, off: int) -> i8 {
    let u = le_value(b.subrange(off, off + 1));
    if u >= 128 { (u - 256) as i8 } else { u as i8 }
}

/// The `i8` values of `s`, each encoded by [`i8_le`], one after another.
pub open spec fn i8s_le(s: Seq<i8>) -> Seq<u8> {
    column(s, |v: i8| i8_le(v))
}

/// The `n` consecutive `i8` values stored from `off` in `b`.
pub open spec fn i8s_at(b: Seq<u8>, off: int, n: nat) -> Seq<i8> {
    Seq::new(n, |i: int| i8_at(b, off + 1 * i))
}

/// The 2-byte little-endian encoding of `v`.
pub open spec fn u16_le(v: u16) -> Seq<u8> {
    le_bytes(v as nat, 2)
}

/// The `u16` stored little-endian at `off` in `b`.
pub open spec fn u16_at(b: Seq<u8>, off: int) -> u16 {
    le_value(b.subrange(off, off + 2)) as u16
}

/// The `u16` values of `s`, each encoded by [`u16_le`], one after another.
pub open spec fn u16s_le(s: Seq<u16>) -> Seq<u8> {
    column(s, |v: u16| u16_le(v))
}

/// The `n` consecutive `u16` values stored from `off` in `b`.
pub open spec fn u16s_at(b: Seq<u8>, off: int, n: nat) -> Seq<u16> {
    Seq::new(n, |i: int| u16_at(b, off + 2 * i))
}

/// The unsigned number whose low 16 bits are the two's complement of `v`.
pub open spec fn i16_bits(v: i16) -> nat {
    if v < 0 { (v + 65536) as nat } else { v as nat }
}

/// The 2-byte little-endian encoding of `v`.
pub open spec fn i16_le(v: i16) -> Seq<u8> {
    le_bytes(i16_bits(v), 2)
}

/// The `i16` stored little-endian at `off` in `b`.
pub open spec fn i16_at(b: Seq<u8>, off: int) -> i16 {
    let u = le_value(b.subrange(off, off + 2));
    if u >= 32768 { (u - 65536) as i16 } else { u as i16 }
}

/// The `i16` values of `s`, each encoded by [`i16_le`], one after another.
pub open spec fn i16s_le(s: Seq<i16>) -> Seq<u8> {
    column(s, |v: i16| i16_le(v))
}

/// The `n` consecutive `i16` values stored from `off` in `b`.
pub open spec fn i16s_at(b: Seq<u8>, off: int, n: nat) -> Seq<i16> {
    Seq::new(n, |i: int| i16_at(b, off + 2 * i))
}

/// The 4-byte little-endian encoding of `v`.
pub open spec fn u32_le(v: u32) -> Seq<u8> {
    le_bytes(v as nat, 4)
}

/// The `u32` stored little-endian at `off` in `b`.
pub open spec fn u32_at(b: Seq<u8>, off: int) -> u32 {
    le_value(b.subrange(off, off + 4)) as u32
}

/// The `u32` values of `s`, each encoded by [`u32_le`], one after another.
pub open spec fn u32s_le(s: Seq<u32>) -> Seq<u8> {
    column(s, |v: u32| u32_le(v))
}

/// The `n` consecutive `u32` values stored from `off` in `b`.
pub open spec fn u32s_at(b: Seq<u8>, off: int, n: nat) -> Seq<u32> {
    Seq::new(n, |i: int| u32_at(b, off + 4 * i))
}

/// The unsigned number whose low 32 bits are the two's complement of `v`.
pub open spec fn i32_bits(v: i32) -> nat {
    if v < 0 { (v + 4294967296) as nat } else { v as nat }
}

/// The 4-byte little-endian encoding of `v`.
pub open spec fn i32_le(v: i32) -> Seq<u8> {
    le_bytes(i32_bits(v), 4)
}

/// The `i32` stored little-endian at `off` in `b`.
pub open spec fn i32_at(b: Seq<u8>, off: int) -> i32 {
    let u = le_value(b.subrange(off, off + 4));
    if u >= 2147483648 { (u - 4294967296) as i32 } else { u as i32 }
}

/// The `i32` values of `s`, each encoded by [`i32_le`], one after another.
pub open spec fn i32s_le(s: Seq<i32>) -> Seq<u8> {
    column(s, |v: i32| i32_le(v))
}

/// The `n` consecutive `i32` values stored from `off` in `b`.
pub open spec fn i32s_at(b: Seq<u8>, off: int, n: nat) -> Seq<i32> {
    Seq::new(n, |i: int| i32_at(b, off + 4 * i))
}

/// The 8-byte little-endian encoding of `v`.
pub open spec fn u64_le(v: u64) -> Seq<u8> {
    le_bytes(v as nat, 8)
}

/// The `u64` stored little-endian at `off` in `b`.
pub open spec fn u64_at(b: Seq<u8>, off: int) -> u64 {
    le_value(b.subrange(off, off + 8)) as u64
}



/// Reads the `u8` stored little-endian at `off`.
pub fn read_u8(b: &[u8], off: usize) -> (v: u8)
    requires
        off + 1 <= b@.len(),
    ensures
        v == u8_at(b@, off as int),
{
    let u = read_le(b, off, 1);
    proof {
        lemma_pow256_bounds();
        lemma_le_bytes_of_value(b@.subrange(off as int, off + 1));
    }
    u as u8
}

/// Appends the little-endian encoding of `v`.
pub fn push_u8(buf: &mut Vec<u8>, v: u8)
    ensures
        final(buf)@ == old(buf)@ + u8_le(v),
{
    push_le(buf, v as u64, 1);
}

/// A `u8` is stored in 1 byte and reads back unchanged.
pub proof fn lemma_u8_roundtrip(v: u8)
    ensures
        u8_le(v).len() == 1,
        u8_at(u8_le(v), 0) == v,
{
    lemma_pow256_bounds();
    lemma_le_bytes_len(v as nat, 1);
    lemma_le_value_of_bytes(v as nat, 1);
    assert(u8_le(v).subrange(0, 1) =~= u8_le(v));
}

/// Storing the `u8` read at `off` gives back the bytes it was read from.
pub proof fn lemma_u8_le_at(b: Seq<u8>, off: int)
    requires
        0 <= off,
        off + 1 <= b.len(),
    ensures
        u8_le(u8_at(b, off)) == b.subrange(off, off + 1),
{
    let sub = b.subrange(off, off + 1);
    lemma_pow256_bounds();
    lemma_le_bytes_of_value(sub);
}

/// A column of `u8` values takes 1 byte per value.
pub proof fn lemma_u8s_le_len(s: Seq<u8>)
    ensures
        u8s_le(s).len() == 1 * s.len(),
{
    let enc = |v: u8| u8_le(v);
    assert forall|x: u8| #[trigger] enc(x).len() == 1 by {
        lemma_u8_roundtrip(x);
    }
    lemma_column_len(s, enc, 1);
}

/// Decoding the encoding of a column gives the column back.
pub proof fn lemma_u8s_roundtrip(s: Seq<u8>, b: Seq<u8>, off: int)
    requires
        0 <= off,
        off + 1 * s.len() <= b.len(),
        b.subrange(off, off + 1 * s.len()) == u8s_le(s),
    ensures
        u8s_at(b, off, s.len()) == s,
{
    let enc = |v: u8| u8_le(v);
    assert forall|x: u8| #[trigger] enc(x).len() == 1 by {
        lemma_u8_roundtrip(x);
    }
    assert forall|i: int| 0 <= i < s.len() implies #[trigger] u8s_at(b, off, s.len())[i] == s[i] by {
        lemma_column_chunk(s, enc, 1, i);
        assert(1 * i + 1 <= 1 * s.len()) by (nonlinear_arith)
            requires
                i + 1 <= s.len(),
        ;
        assert(b.subrange(off + 1 * i, off + 1 * i + 1) =~= u8s_le(s).subrange(1 * i, 1 * i + 1));
        lemma_u8_roundtrip(s[i]);
        assert(u8_le(s[i]).subrange(0, 1) =~= u8_le(s[i]));
    }
    assert(u8s_at(b, off, s.len()) =~= s);
}

/// Encoding a decoded column gives back the bytes it was read from.
pub proof fn lemma_u8s_le_at(b: Seq<u8>, off: int, n: nat)
    requires
        0 <= off,
        off + 1 * n <= b.len(),
    ensures
        u8s_le(u8s_at(b, off, n)) == b.subrange(off, off + 1 * n),
    decreases n,
{
    if n == 0 {
        assert(b.subrange(off, off) =~= Seq::<u8>::empty());
    } else {
        let m = (n - 1) as nat;
        assert(1 * m + 1 == 1 * n);
        lemma_u8s_le_at(b, off, m);
        let s = u8s_at(b, off, n);
        assert(s.drop_last() =~= u8s_at(b, off, m));
        lemma_u8_le_at(b, off + 1 * m);
        assert(b.subrange(off, off + 1 * n) =~= b.subrange(off, off + 1 * m) + b.subrange(
            off + 1 * m,
            off + 1 * n,
        ));
    }
}

/// Reads `n` consecutive `u8` values starting at `off`.
pub fn read_u8s(b: &[u8], off: usize, n: usize) -> (r: Vec<u8>)
    requires
        off + 1 * n <= b@.len(),
    ensures
        r@ == u8s_at(b@, off as int, n as nat),
{
    let len = b.len();
    let mut r: Vec<u8> = Vec::with_capacity(n);
    let mut i: usize = 0;
    while i < n
        invariant
            i <= n,
            off + 1 * n <= b@.len(),
            len == b@.len(),
            r@ =~= u8s_at(b@, off as int, i as nat),
        decreases n - i,
    {
        assert(off + 1 * i + 1 <= off + 1 * n);
        let v = read_u8(b, off + 1 * i);
        r.push(v);
        i = i + 1;
    }
    r
}

/// Appends the encoding of every value of `s`, in order.
pub fn push_u8s(buf: &mut Vec<u8>, s: &Vec<u8>)
    ensures
        final(buf)@ == old(buf)@ + u8s_le(s@),
{
    let mut i: usize = 0;
    while i < s.len()
        invariant
            i <= s@.len(),
            buf@ == old(buf)@ + u8s_le(s@.take(i as int)),
        decreases s@.len() - i,
    {
        let ghost pre = s@.take(i as int);
        push_u8(buf, s[i]);
        proof {
            lemma_column_push(pre, s@[i as int], |v: u8| u8_le(v));
            assert(s@.take(i + 1) =~= pre.push(s@[i as int]));
        }
        i = i + 1;
    }
    assert(s@.take(s@.len() as int) =~= s@);
}

/// Reads the `i8` stored little-endian at `off`.
pub fn read_i8(b: &[u8], off: usize) -> (v: i8)
    requires
        off + 1 <= b@.len(),
    ensures
        v == i8_at(b@, off as int),
{
    proof {
        lemma_pow256_bounds();
        lemma_le_bytes_of_value(b@.subrange(off as int, off + 1));
    }
    let u = read_le(b, off, 1);
    if u >= 128 {
        (u as i64 - 256) as i8
    } else {
        u as i8
    }
}

/// Appends the little-endian encoding of `v`.
pub fn push_i8(buf: &mut Vec<u8>, v: i8)
    ensures
        final(buf)@ == old(buf)@ + i8_le(v),
{
    let bits: u64 = if v < 0 {
        (v as i64 + 256) as u64
    } else {
        v as u64
    };
    push_le(buf, bits, 1);
}

/// A `i8` is stored in 1 byte and reads back unchanged.
pub proof fn lemma_i8_roundtrip(v: i8)
    ensures
        i8_le(v).len() == 1,
        i8_at(i8_le(v), 0) == v,
{
    lemma_pow256_bounds();
    lemma_le_bytes_len(i8_bits(v), 1);
    lemma_le_value_of_bytes(i8_bits(v), 1);
    assert(i8_le(v).subrange(0, 1) =~= i8_le(v));
}

/// Storing the `i8` read at `off` gives back the bytes it was read from.
pub proof fn lemma_i8_le_at(b: Seq<u8>, off: int)
    requires
        0 <= off,
        off + 1 <= b.len(),
    ensures
        i8_le(i8_at(b, off)) == b.subrange(off, off + 1),
{
    let sub = b.subrange(off, off + 1);
    lemma_pow256_bounds();
    lemma_le_bytes_of_value(sub);
}

/// A column of `i8` values takes 1 byte per value.
pub proof fn lemma_i8s_le_len(s: Seq<i8>)
    ensures
        i8s_le(s).len() == 1 * s.len(),
{
    let enc = |v: i8| i8_le(v);
    assert forall|x: i8| #[trigger] enc(x).len() == 1 by {
        lemma_i8_roundtrip(x);
    }
    lemma_column_len(s, enc, 1);
}

/// Decoding the encoding of a column gives the column back.
pub proof fn lemma_i8s_roundtrip(s: Seq<i8>, b: Seq<u8>, off: int)
    requires
        0 <= off,
        off + 1 * s.len() <= b.len(),
        b.subrange(off, off + 1 * s.len()) == i8s_le(s),
    ensures
        i8s_at(b, off, s.len()) == s,
{
    let enc = |v: i8| i8_le(v);
    assert forall|x: i8| #[trigger] enc(x).len() == 1 by {
        lemma_i8_roundtrip(x);
    }
    assert forall|i: int| 0 <= i < s.len() implies #[trigger] i8s_at(b, off, s.len())[i] == s[i] by {
        lemma_column_chunk(s, enc, 1, i);
        assert(1 * i + 1 <= 1 * s.len()) by (nonlinear_arith)
            requires
                i + 1 <= s.len(),
        ;
        assert(b.subrange(off + 1 * i, off + 1 * i + 1) =~= i8s_le(s).subrange(1 * i, 1 * i + 1));
        lemma_i8_roundtrip(s[i]);
        assert(i8_le(s[i]).subrange(0, 1) =~= i8_le(s[i]));
    }
    assert(i8s_at(b, off, s.len()) =~= s);
}

/// Encoding a decoded column gives back the bytes it was read from.
pub proof fn lemma_i8s_le_at(b: Seq<u8>, off: int, n: nat)
    requires
        0 <= off,
        off + 1 * n <= b.len(),
    ensures
        i8s_le(i8s_at(b, off, n)) == b.subrange(off, off + 1 * n),
    decreases n,
{
    if n == 0 {
        assert(b.subrange(off, off) =~= Seq::<u8>::empty());
    } else {
        let m = (n - 1) as nat;
        assert(1 * m + 1 == 1 * n);
        lemma_i8s_le_at(b, off, m);
        let s = i8s_at(b, off, n);
        assert(s.drop_last() =~= i8s_at(b, off, m));
        lemma_i8_le_at(b, off + 1 * m);
        assert(b.subrange(off, off + 1 * n) =~= b.subrange(off, off + 1 * m) + b.subrange(
            off + 1 * m,
            off + 1 * n,
        ));
    }
}

/// Reads `n` consecutive `i8` values starting at `off`.
pub fn read_i8s(b: &[u8], off: usize, n: usize) -> (r: Vec<i8>)
    requires
        off + 1 * n <= b@.len(),
    ensures
        r@ == i8s_at(b@, off as int, n as nat),
{
    let len = b.len();
    let mut r: Vec<i8> = Vec::with_capacity(n);
    let mut i: usize = 0;
    while i < n
        invariant
            i <= n,
            off + 1 * n <= b@.len(),
            len == b@.len(),
            r@ =~= i8s_at(b@, off as int, i as nat),
        decreases n - i,
    {
        assert(off + 1 * i + 1 <= off + 1 * n);
        let v = read_i8(b, off + 1 * i);
        r.push(v);
        i = i + 1;
    }
    r
}

/// Appends the encoding of every value of `s`, in order.
pub fn push_i8s(buf: &mut Vec<u8>, s: &Vec<i8>)
    ensures
        final(buf)@ == old(buf)@ + i8s_le(s@),
{
    let mut i: usize = 0;
    while i < s.len()
        invariant
            i <= s@.len(),
            buf@ == old(buf)@ + i8s_le(s@.take(i as int)),
        decreases s@.len() - i,
    {
        let ghost pre = s@.take(i as int);
        push_i8(buf, s[i]);
        proof {
            lemma_column_push(pre, s@[i as int], |v: i8| i8_le(v));
            assert(s@.take(i + 1) =~= pre.push(s@[i as int]));
        }
        i = i + 1;
    }
    assert(s@.take(s@.len() as int) =~= s@);
}

/// Reads the `u16` stored little-endian at `off`.
pub fn read_u16(b: &[u8], off: usize) -> (v: u16)
    requires
        off + 2 <= b@.len(),
    ensures
        v == u16_at(b@, off as int),
{
    let u = read_le(b, off, 2);
    proof {
        lemma_pow256_bounds();
        lemma_le_bytes_of_value(b@.subrange(off as int, off + 2));
    }
    u as u16
}

/// Appends the little-endian encoding of `v`.
pub fn push_u16(buf: &mut Vec<u8>, v: u16)
    ensures
        final(buf)@ == old(buf)@ + u16_le(v),
{
    push_le(buf, v as u64, 2);
}

/// A `u16` is stored in 2 bytes and reads back unchanged.
pub proof fn lemma_u16_roundtrip(v: u16)
    ensures
        u16_le(v).len() == 2,
        u16_at(u16_le(v), 0) == v,
{
    lemma_pow256_bounds();
    lemma_le_bytes_len(v as nat, 2);
    lemma_le_value_of_bytes(v as nat, 2);
    assert(u16_le(v).subrange(0, 2) =~= u16_le(v));
}

/// Storing the `u16` read at `off` gives back the bytes it was read from.
pub proof fn lemma_u16_le_at(b: Seq<u8>, off: int)
    requires
        0 <= off,
        off + 2 <= b.len(),
    ensures
        u16_le(u16_at(b, off)) == b.subrange(off, off + 2),
{
    let sub = b.subrange(off, off + 2);
    lemma_pow256_bounds();
    lemma_le_bytes_of_value(sub);
}

/// A column of `u16` values takes 2 bytes per value.
pub proof fn lemma_u16s_le_len(s: Seq<u16>)
    ensures
        u16s_le(s).len() == 2 * s.len(),
{
    let enc = |v: u16| u16_le(v);
    assert forall|x: u16| #[trigger] enc(x).len() == 2 by {
        lemma_u16_roundtrip(x);
    }
    lemma_column_len(s, enc, 2);
}

/// Decoding the encoding of a column gives the column back.
pub proof fn lemma_u16s_roundtrip(s: Seq<u16>, b: Seq<u8>, off: int)
    requires
        0 <= off,
        off + 2 * s.len() <= b.len(),
        b.subrange(off, off + 2 * s.len()) == u16s_le(s),
    ensures
        u16s_at(b, off, s.len()) == s,
{
    let enc = |v: u16| u16_le(v);
    assert forall|x: u16| #[trigger] enc(x).len() == 2 by {
        lemma_u16_roundtrip(x);
    }
    assert forall|i: int| 0 <= i < s.len() implies #[trigger] u16s_at(b, off, s.len())[i] == s[i] by {
        lemma_column_chunk(s, enc, 2, i);
        assert(2 * i + 2 <= 2 * s.len()) by (nonlinear_arith)
            requires
                i + 1 <= s.len(),
        ;
        assert(b.subrange(off + 2 * i, off + 2 * i + 2) =~= u16s_le(s).subrange(2 * i, 2 * i + 2));
        lemma_u16_roundtrip(s[i]);
        assert(u16_le(s[i]).subrange(0, 2) =~= u16_le(s[i]));
    }
    assert(u16s_at(b, off, s.len()) =~= s);
}

/// Encoding a decoded column gives back the bytes it was read from.
pub proof fn lemma_u16s_le_at(b: Seq<u8>, off: int, n: nat)
    requires
        0 <= off,
        off + 2 * n <= b.len(),
    ensures
        u16s_le(u16s_at(b, off, n)) == b.subrange(off, off + 2 * n),
    decreases n,
{
    if n == 0 {
        assert(b.subrange(off, off) =~= Seq::<u8>::empty());
    } else {
        let m = (n - 1) as nat;
        assert(2 * m + 2 == 2 * n);
        lemma_u16s_le_at(b, off, m);
        let s = u16s_at(b, off, n);
        assert(s.drop_last() =~= u16s_at(b, off, m));
        lemma_u16_le_at(b, off + 2 * m);
        assert(b.subrange(off, off + 2 * n) =~= b.subrange(off, off + 2 * m) + b.subrange(
            off + 2 * m,
            off + 2 * n,
        ));
    }
}

/// Reads `n` consecutive `u16` values starting at `off`.
pub fn read_u16s(b: &[u8], off: usize, n: usize) -> (r: Vec<u16>)
    requires
        off + 2 * n <= b@.len(),
    ensures
        r@ == u16s_at(b@, off as int, n as nat),
{
    let len = b.len();
    let mut r: Vec<u16> = Vec::with_capacity(n);
    let mut i: usize = 0;
    while i < n
        invariant
            i <= n,
            off + 2 * n <= b@.len(),
            len == b@.len(),
            r@ =~= u16s_at(b@, off as int, i as nat),
        decreases n - i,
    {
        assert(off + 2 * i + 2 <= off + 2 * n);
        let v = read_u16(b, off + 2 * i);
        r.push(v);
        i = i + 1;
    }
    r
}

/// Appends the encoding of every value of `s`, in order.
pub fn push_u16s(buf: &mut Vec<u8>, s: &Vec<u16>)
    ensures
        final(buf)@ == old(buf)@ + u16s_le(s@),
{
    let mut i: usize = 0;
    while i < s.len()
        invariant
            i <= s@.len(),
            buf@ == old(buf)@ + u16s_le(s@.take(i as int)),
        decreases s@.len() - i,
    {
        let ghost pre = s@.take(i as int);
        push_u16(buf, s[i]);
        proof {
            lemma_column_push(pre, s@[i as int], |v: u16| u16_le(v));
            assert(s@.take(i + 1) =~= pre.push(s@[i as int]));
        }
        i = i + 1;
    }
    assert(s@.take(s@.len() as int) =~= s@);
}

/// Reads the `i16` stored little-endian at `off`.
pub fn read_i16(b: &[u8], off: usize) -> (v: i16)
    requires
        off + 2 <= b@.len(),
    ensures
        v == i16_at(b@, off as int),
{
    proof {
        lemma_pow256_bounds();
        lemma_le_bytes_of_value(b@.subrange(off as int, off + 2));
    }
    let u = read_le(b, off, 2);
    if u >= 32768 {
        (u as i64 - 65536) as i16
    } else {
        u as i16
    }
}

/// Appends the little-endian encoding of `v`.
pub fn push_i16(buf: &mut Vec<u8>, v: i16)
    ensures
        final(buf)@ == old(buf)@ + i16_le(v),
{
    let bits: u64 = if v < 0 {
        (v as i64 + 65536) as u64
    } else {
        v as u64
    };
    push_le(buf, bits, 2);
}

/// A `i16` is stored in 2 bytes and reads back unchanged.
pub proof fn lemma_i16_roundtrip(v: i16)
    ensures
        i16_le(v).len() == 2,
        i16_at(i16_le(v), 0) == v,
{
    lemma_pow256_bounds();
    lemma_le_bytes_len(i16_bits(v), 2);
    lemma_le_value_of_bytes(i16_bits(v), 2);
    assert(i16_le(v).subrange(0, 2) =~= i16_le(v));
}

/// Storing the `i16` read at `off` gives back the bytes it was read from.
pub proof fn lemma_i16_le_at(b: Seq<u8>, off: int)
    requires
        0 <= off,
        off + 2 <= b.len(),
    ensures
        i16_le(i16_at(b, off)) == b.subrange(off, off + 2),
{
    let sub = b.subrange(off, off + 2);
    lemma_pow256_bounds();
    lemma_le_bytes_of_value(sub);
}

/// A column of `i16` values takes 2 bytes per value.
pub proof fn lemma_i16s_le_len(s: Seq<i16>)
    ensures
        i16s_le(s).len() == 2 * s.len(),
{
    let enc = |v: i16| i16_le(v);
    assert forall|x: i16| #[trigger] enc(x).len() == 2 by {
        lemma_i16_roundtrip(x);
    }
    lemma_column_len(s, enc, 2);
}

/// Decoding the encoding of a column gives the column back.
pub proof fn lemma_i16s_roundtrip(s: Seq<i16>, b: Seq<u8>, off: int)
    requires
        0 <= off,
        off + 2 * s.len() <= b.len(),
        b.subrange(off, off + 2 * s.len()) == i16s_le(s),
    ensures
        i16s_at(b, off, s.len()) == s,
{
    let enc = |v: i16| i16_le(v);
    assert forall|x: i16| #[trigger] enc(x).len() == 2 by {
        lemma_i16_roundtrip(x);
    }
    assert forall|i: int| 0 <= i < s.len() implies #[trigger] i16s_at(b, off, s.len())[i] == s[i] by {
        lemma_column_chunk(s, enc, 2, i);
        assert(2 * i + 2 <= 2 * s.len()) by (nonlinear_arith)
            requires
                i + 1 <= s.len(),
        ;
        assert(b.subrange(off + 2 * i, off + 2 * i + 2) =~= i16s_le(s).subrange(2 * i, 2 * i + 2));
        lemma_i16_roundtrip(s[i]);
        assert(i16_le(s[i]).subrange(0, 2) =~= i16_le(s[i]));
    }
    assert(i16s_at(b, off, s.len()) =~= s);
}

/// Encoding a decoded column gives back the bytes it was read from.
pub proof fn lemma_i16s_le_at(b: Seq<u8>, off: int, n: nat)
    requires
        0 <= off,
        off + 2 * n <= b.len(),
    ensures
        i16s_le(i16s_at(b, off, n)) == b.subrange(off, off + 2 * n),
    decreases n,
{
    if n == 0 {
        assert(b.subrange(off, off) =~= Seq::<u8>::empty());
    } else {
        let m = (n - 1) as nat;
        assert(2 * m + 2 == 2 * n);
        lemma_i16s_le_at(b, off, m);
        let s = i16s_at(b, off, n);
        assert(s.drop_last() =~= i16s_at(b, off, m));
        lemma_i16_le_at(b, off + 2 * m);
        assert(b.subrange(off, off + 2 * n) =~= b.subrange(off, off + 2 * m) + b.subrange(
            off + 2 * m,
            off + 2 * n,
        ));
    }
}

/// Reads `n` consecutive `i16` values starting at `off`.
pub fn read_i16s(b: &[u8], off: usize, n: usize) -> (r: Vec<i16>)
    requires
        off + 2 * n <= b@.len(),
    ensures
        r@ == i16s_at(b@, off as int, n as nat),
{
    let len = b.len();
    let mut r: Vec<i16> = Vec::with_capacity(n);
    let mut i: usize = 0;
    while i < n
        invariant
            i <= n,
            off + 2 * n <= b@.len(),
            len == b@.len(),
            r@ =~= i16s_at(b@, off as int, i as nat),
        decreases n - i,
    {
        assert(off + 2 * i + 2 <= off + 2 * n);
        let v = read_i16(b, off + 2 * i);
        r.push(v);
        i = i + 1;
    }
    r
}

/// Appends the encoding of every value of `s`, in order.
pub fn push_i16s(buf: &mut Vec<u8>, s: &Vec<i16>)
    ensures
        final(buf)@ == old(buf)@ + i16s_le(s@),
{
    let mut i: usize = 0;
    while i < s.len()
        invariant
            i <= s@.len(),
            buf@ == old(buf)@ + i16s_le(s@.take(i as int)),
        decreases s@.len() - i,
    {
        let ghost pre = s@.take(i as int);
        push_i16(buf, s[i]);
        proof {
            lemma_column_push(pre, s@[i as int], |v: i16| i16_le(v));
            assert(s@.take(i + 1) =~= pre.push(s@[i as int]));
        }
        i = i + 1;
    }
    assert(s@.take(s@.len() as int) =~= s@);
}

/// Reads the `u32` stored little-endian at `off`.
pub fn read_u32(b: &[u8], off: usize) -> (v: u32)
    requires
        off + 4 <= b@.len(),
    ensures
        v == u32_at(b@, off as int),
{
    let u = read_le(b, off, 4);
    proof {
        lemma_pow256_bounds();
        lemma_le_bytes_of_value(b@.subrange(off as int, off + 4));
    }
    u as u32
}

/// Appends the little-endian encoding of `v`.
pub fn push_u32(buf: &mut Vec<u8>, v: u32)
    ensures
        final(buf)@ == old(buf)@ + u32_le(v),
{
    push_le(buf, v as u64, 4);
}

/// A `u32` is stored in 4 bytes and reads back unchanged.
pub proof fn lemma_u32_roundtrip(v: u32)
    ensures
        u32_le(v).len() == 4,
        u32_at(u32_le(v), 0) == v,
{
    lemma_pow256_bounds();
    lemma_le_bytes_len(v as nat, 4);
    lemma_le_value_of_bytes(v as nat, 4);
    assert(u32_le(v).subrange(0, 4) =~= u32_le(v));
}

/// Storing the `u32` read at `off` gives back the bytes it was read from.
pub proof fn lemma_u32_le_at(b: Seq<u8>, off: int)
    requires
        0 <= off,
        off + 4 <= b.len(),
    ensures
        u32_le(u32_at(b, off)) == b.subrange(off, off + 4),
{
    let sub = b.subrange(off, off + 4);
    lemma_pow256_bounds();
    lemma_le_bytes_of_value(sub);
}

/// A column of `u32` values takes 4 bytes per value.
pub proof fn lemma_u32s_le_len(s: Seq<u32>)
    ensures
        u32s_le(s).len() == 4 * s.len(),
{
    let enc = |v: u32| u32_le(v);
    assert forall|x: u32| #[trigger] enc(x).len() == 4 by {
        lemma_u32_roundtrip(x);
    }
    lemma_column_len(s, enc, 4);
}

/// Decoding the encoding of a column gives the column back.
pub proof fn lemma_u32s_roundtrip(s: Seq<u32>, b: Seq<u8>, off: int)
    requires
        0 <= off,
        off + 4 * s.len() <= b.len(),
        b.subrange(off, off + 4 * s.len()) == u32s_le(s),
    ensures
        u32s_at(b, off, s.len()) == s,
{
    let enc = |v: u32| u32_le(v);
    assert forall|x: u32| #[trigger] enc(x).len() == 4 by {
        lemma_u32_roundtrip(x);
    }
    assert forall|i: int| 0 <= i < s.len() implies #[trigger] u32s_at(b, off, s.len())[i] == s[i] by {
        lemma_column_chunk(s, enc, 4, i);
        assert(4 * i + 4 <= 4 * s.len()) by (nonlinear_arith)
            requires
                i + 1 <= s.len(),
        ;
        assert(b.subrange(off + 4 * i, off + 4 * i + 4) =~= u32s_le(s).subrange(4 * i, 4 * i + 4));
        lemma_u32_roundtrip(s[i]);
        assert(u32_le(s[i]).subrange(0, 4) =~= u32_le(s[i]));
    }
    assert(u32s_at(b, off, s.len()) =~= s);
}

/// Encoding a decoded column gives back the bytes it was read from.
pub proof fn lemma_u32s_le_at(b: Seq<u8>, off: int, n: nat)
    requires
        0 <= off,
        off + 4 * n <= b.len(),
    ensures
        u32s_le(u32s_at(b, off, n)) == b.subrange(off, off + 4 * n),
    decreases n,
{
    if n == 0 {
        assert(b.subrange(off, off) =~= Seq::<u8>::empty());
    } else {
        let m = (n - 1) as nat;
        assert(4 * m + 4 == 4 * n);
        lemma_u32s_le_at(b, off, m);
        let s = u32s_at(b, off, n);
        assert(s.drop_last() =~= u32s_at(b, off, m));
        lemma_u32_le_at(b, off + 4 * m);
        assert(b.subrange(off, off + 4 * n) =~= b.subrange(off, off + 4 * m) + b.subrange(
            off + 4 * m,
            off + 4 * n,
        ));
    }
}

/// Reads `n` consecutive `u32` values starting at `off`.
pub fn read_u32s(b: &[u8], off: usize, n: usize) -> (r: Vec<u32>)
    requires
        off + 4 * n <= b@.len(),
    ensures
        r@ == u32s_at(b@, off as int, n as nat),
{
    let len = b.len();
    let mut r: Vec<u32> = Vec::with_capacity(n);
    let mut i: usize = 0;
    while i < n
        invariant
            i <= n,
            off + 4 * n <= b@.len(),
            len == b@.len(),
            r@ =~= u32s_at(b@, off as int, i as nat),
        decreases n - i,
    {
        assert(off + 4 * i + 4 <= off + 4 * n);
        let v = read_u32(b, off + 4 * i);
        r.push(v);
        i = i + 1;
    }
    r
}

/// Appends the encoding of every value of `s`, in order.
pub fn push_u32s(buf: &mut Vec<u8>, s: &Vec<u32>)
    ensures
        final(buf)@ == old(buf)@ + u32s_le(s@),
{
    let mut i: usize = 0;
    while i < s.len()
        invariant
            i <= s@.len(),
            buf@ == old(buf)@ + u32s_le(s@.take(i as int)),
        decreases s@.len() - i,
    {
        let ghost pre = s@.take(i as int);
        push_u32(buf, s[i]);
        proof {
            lemma_column_push(pre, s@[i as int], |v: u32| u32_le(v));
            assert(s@.take(i + 1) =~= pre.push(s@[i as int]));
        }
        i = i + 1;
    }
    assert(s@.take(s@.len() as int) =~= s@);
}

/// Reads the `i32` stored little-endian at `off`.
pub fn read_i32(b: &[u8], off: usize) -> (v: i32)
    requires
        off + 4 <= b@.len(),
    ensures
        v == i32_at(b@, off as int),
{
    proof {
        lemma_pow256_bounds();
        lemma_le_bytes_of_value(b@.subrange(off as int, off + 4));
    }
    let u = read_le(b, off, 4);
    if u >= 2147483648 {
        (u as i64 - 4294967296) as i32
    } else {
        u as i32
    }
}

/// Appends the little-endian encoding of `v`.
pub fn push_i32(buf: &mut Vec<u8>, v: i32)
    ensures
        final(buf)@ == old(buf)@ + i32_le(v),
{
    let bits: u64 = if v < 0 {
        (v as i64 + 4294967296) as u64
    } else {
        v as u64
    };
    push_le(buf, bits, 4);
}

/// A `i32` is stored in 4 bytes and reads back unchanged.
pub proof fn lemma_i32_roundtrip(v: i32)
    ensures
        i32_le(v).len() == 4,
        i32_at(i32_le(v), 0) == v,
{
    lemma_pow256_bounds();
    lemma_le_bytes_len(i32_bits(v), 4);
    lemma_le_value_of_bytes(i32_bits(v), 4);
    assert(i32_le(v).subrange(0, 4) =~= i32_le(v));
}

/// Storing the `i32` read at `off` gives back the bytes it was read from.
pub proof fn lemma_i32_le_at(b: Seq<u8>, off: int)
    requires
        0 <= off,
        off + 4 <= b.len(),
    ensures
        i32_le(i32_at(b, off)) == b.subrange(off, off + 4),
{
    let sub = b.subrange(off, off + 4);
    lemma_pow256_bounds();
    lemma_le_bytes_of_value(sub);
}

/// A column of `i32` values takes 4 bytes per value.
pub proof fn lemma_i32s_le_len(s: Seq<i32>)
    ensures
        i32s_le(s).len() == 4 * s.len(),
{
    let enc = |v: i32| i32_le(v);
    assert forall|x: i32| #[trigger] enc(x).len() == 4 by {
        lemma_i32_roundtrip(x);
    }
    lemma_column_len(s, enc, 4);
}

/// Decoding the encoding of a column gives the column back.
pub proof fn lemma_i32s_roundtrip(s: Seq<i32>, b: Seq<u8>, off: int)
    requires
        0 <= off,
        off + 4 * s.len() <= b.len(),
        b.subrange(off, off + 4 * s.len()) == i32s_le(s),
    ensures
        i32s_at(b, off, s.len()) == s,
{
    let enc = |v: i32| i32_le(v);
    assert forall|x: i32| #[trigger] enc(x).len() == 4 by {
        lemma_i32_roundtrip(x);
    }
    assert forall|i: int| 0 <= i < s.len() implies #[trigger] i32s_at(b, off, s.len())[i] == s[i] by {
        lemma_column_chunk(s, enc, 4, i);
        assert(4 * i + 4 <= 4 * s.len()) by (nonlinear_arith)
            requires
                i + 1 <= s.len(),
        ;
        assert(b.subrange(off + 4 * i, off + 4 * i + 4) =~= i32s_le(s).subrange(4 * i, 4 * i + 4));
        lemma_i32_roundtrip(s[i]);
        assert(i32_le(s[i]).subrange(0, 4) =~= i32_le(s[i]));
    }
    assert(i32s_at(b, off, s.len()) =~= s);
}

/// Encoding a decoded column gives back the bytes it was read from.
pub proof fn lemma_i32s_le_at(b: Seq<u8>, off: int, n: nat)
    requires
        0 <= off,
        off + 4 * n <= b.len(),
    ensures
        i32s_le(i32s_at(b, off, n)) == b.subrange(off, off + 4 * n),
    decreases n,
{
    if n == 0 {
        assert(b.subrange(off, off) =~= Seq::<u8>::empty());
    } else {
        let m = (n - 1) as nat;
        assert(4 * m + 4 == 4 * n);
        lemma_i32s_le_at(b, off, m);
        let s = i32s_at(b, off, n);
        assert(s.drop_last() =~= i32s_at(b, off, m));
        lemma_i32_le_at(b, off + 4 * m);
        assert(b.subrange(off, off + 4 * n) =~= b.subrange(off, off + 4 * m) + b.subrange(
            off + 4 * m,
            off + 4 * n,
        ));
    }
}

/// Reads `n` consecutive `i32` values starting at `off`.
pub fn read_i32s(b: &[u8], off: usize, n: usize) -> (r: Vec<i32>)
    requires
        off + 4 * n <= b@.len(),
    ensures
        r@ == i32s_at(b@, off as int, n as nat),
{
    let len = b.len();
    let mut r: Vec<i32> = Vec::with_capacity(n);
    let mut i: usize = 0;
    while i < n
        invariant
            i <= n,
            off + 4 * n <= b@.len(),
            len == b@.len(),
            r@ =~= i32s_at(b@, off as int, i as nat),
        decreases n - i,
    {
        assert(off + 4 * i + 4 <= off + 4 * n);
        let v = read_i32(b, off + 4 * i);
        r.push(v);
        i = i + 1;
    }
    r
}

/// Appends the encoding of every value of `s`, in order.
pub fn push_i32s(buf: &mut Vec<u8>, s: &Vec<i32>)
    ensures
        final(buf)@ == old(buf)@ + i32s_le(s@),
{
    let mut i: usize = 0;
    while i < s.len()
        invariant
            i <= s@.len(),
            buf@ == old(buf)@ + i32s_le(s@.take(i as int)),
        decreases s@.len() - i,
    {
        let ghost pre = s@.take(i as int);
        push_i32(buf, s[i]);
        proof {
            lemma_column_push(pre, s@[i as int], |v: i32| i32_le(v));
            assert(s@.take(i + 1) =~= pre.push(s@[i as int]));
        }
        i = i + 1;
    }
    assert(s@.take(s@.len() as int) =~= s@);
}

/// Reads the `u64` stored little-endian at `off`.
pub fn read_u64(b: &[u8], off: usize) -> (v: u64)
    requires
        off + 8 <= b@.len(),
    ensures
        v == u64_at(b@, off as int),
{
    let u = read_le(b, off, 8);
    proof {
        lemma_pow256_bounds();
        lemma_le_bytes_of_value(b@.subrange(off as int, off + 8));
    }
    u as u64
}

/// Appends the little-endian encoding of `v`.
pub fn push_u64(buf: &mut Vec<u8>, v: u64)
    ensures
        final(buf)@ == old(buf)@ + u64_le(v),
{
    push_le(buf, v as u64, 8);
}

/// A `u64` is stored in 8 bytes and reads back unchanged.
pub proof fn lemma_u64_roundtrip(v: u64)
    ensures
        u64_le(v).len() == 8,
        u64_at(u64_le(v), 0) == v,
{
    lemma_pow256_bounds();
    lemma_le_bytes_len(v as nat, 8);
    lemma_le_value_of_bytes(v as nat, 8);
    assert(u64_le(v).subrange(0, 8) =~= u64_le(v));
}

/// Storing the `u64` read at `off` gives back the bytes it was read from.
pub proof fn lemma_u64_le_at(b: Seq<u8>, off: int)
    requires
        0 <= off,
        off + 8 <= b.len(),
    ensures
        u64_le(u64_at(b, off)) == b.subrange(off, off + 8),
{
    let sub = b.subrange(off, off + 8);
    lemma_pow256_bounds();
    lemma_le_bytes_of_value(sub);
}

/// Appends every byte of `s`, in order.
pub fn push_bytes(buf: &mut Vec<u8>, s: &[u8])
    ensures
        final(buf)@ == old(buf)@ + s@,
{
    let mut i: usize = 0;
    while i < s.len()
        invariant
            i <= s@.len(),
            buf@ == old(buf)@ + s@.take(i as int),
        decreases s@.len() - i,
    {
        buf.push(s[i]);
        i = i + 1;
        assert(buf@ =~= old(buf)@ + s@.take(i as int));
    }
    assert(s@.take(s@.len() as int) =~= s@);
}

/// A copy of `b[from..to]`.
pub fn copy_range(b: &[u8], from: usize, to: usize) -> (r: Vec<u8>)
    requires
        from <= to <= b@.len(),
    ensures
        r@ == b@.subrange(from as int, to as int),
{
    let mut r: Vec<u8> = Vec::with_capacity(to - from);
    let mut i: usize = from;
    while i < to
        invariant
            from <= i <= to,
            to <= b@.len(),
            r@ =~= b@.subrange(from as int, i as int),
        decreases to - i,
    {
        r.push(b[i]);
        i = i + 1;
    }
    r
}


/// A prefix of a column is no longer than the column.
pub proof fn lemma_column_prefix_len<T>(s: Seq<T>, enc: spec_fn(T) -> Seq<u8>, k: int)
    requires
        0 <= k <= s.len(),
    ensures
        column(s.take(k), enc).len() <= column(s, enc).len(),
    decreases s.len(),
{
    if k < s.len() {
        assert(s.drop_last().take(k) =~= s.take(k));
        lemma_column_prefix_len(s.drop_last(), enc, k);
    } else {
        assert(s.take(k) =~= s);
    }
}

/// The encoding of element `i` sits right after the encodings of the
/// elements before it.
pub proof fn lemma_column_element<T>(s: Seq<T>, enc: spec_fn(T) -> Seq<u8>, i: int)
    requires
        0 <= i < s.len(),
    ensures
        column(s.take(i + 1), enc).len() == column(s.take(i), enc).len() + enc(s[i]).len(),
        column(s, enc).subrange(
            column(s.take(i), enc).len() as int,
            column(s.take(i + 1), enc).len() as int,
        ) == enc(s[i]),
    decreases s.len(),
{
    assert(s.take(i + 1).drop_last() =~= s.take(i));
    if i == s.len() - 1 {
        assert(s.take(i + 1) =~= s);
        assert(s.drop_last() =~= s.take(i));
        assert(column(s, enc).subrange(
            column(s.take(i), enc).len() as int,
            column(s.take(i + 1), enc).len() as int,
        ) =~= enc(s[i]));
    } else {
        lemma_column_element(s.drop_last(), enc, i);
        assert(s.drop_last().take(i) =~= s.take(i));
        assert(s.drop_last().take(i + 1) =~= s.take(i + 1));
        lemma_column_prefix_len(s.drop_last(), enc, i + 1);
        assert(column(s, enc).subrange(
            column(s.take(i), enc).len() as int,
            column(s.take(i + 1), enc).len() as int,
        ) =~= column(s.drop_last(), enc).subrange(
            column(s.take(i), enc).len() as int,
            column(s.take(i + 1), enc).len() as int,
        ));
    }
}

} // verus!

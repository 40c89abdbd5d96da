//! Byte strings: fixed-width integers, copies and concatenation.
use vstd::prelude::*;

verus! {

/// The `len` least significant bytes of `v`, least significant first.
pub open spec fn le_bytes(v: int, len: nat) -> Seq<u8>
    decreases len,
{
    if len == 0 {
        Seq::empty()
    } else {
        seq![(v % 256) as u8] + le_bytes(v / 256, (len - 1) as nat)
    }
}

/// The integer that `b` denotes, least significant byte first.
pub open spec fn le_value(b: Seq<u8>) -> int
    decreases b.len(),
{
    if b.len() == 0 {
        0
    } else {
        b[0] as int + 256 * le_value(b.drop_first())
    }
}

/// The `len` least significant bytes of `v`, most significant first.
pub open spec fn be_bytes(v: int, len: nat) -> Seq<u8> {
    le_bytes(v, len).reverse()
}

/// The integer that `b` denotes, most significant byte first.
pub open spec fn be_value(b: Seq<u8>) -> int {
    le_value(b.reverse())
}

/// `256` to the power `len`.
pub open spec fn byte_bound(len: nat) -> int
    decreases len,
{
    if len == 0 {
        1
    } else {
        256 * byte_bound((len - 1) as nat)
    }
}

/// Encoding has the requested width, and decoding undoes it.
pub proof fn lemma_le_bytes(v: int, len: nat)
    ensures
        le_bytes(v, len).len() == len,
        0 <= v < byte_bound(len) ==> le_value(le_bytes(v, len)) == v,
    decreases len,
{
    if len > 0 {
        let rest = le_bytes(v / 256, (len - 1) as nat);
        lemma_le_bytes(v / 256, (len - 1) as nat);
        assert(le_bytes(v, len).drop_first() =~= rest);
        assert(le_bytes(v, len)[0] == (v % 256) as u8);
    }
}

/// A decoded value fits its width, and encoding undoes decoding.
pub proof fn lemma_le_value(b: Seq<u8>)
    ensures
        0 <= le_value(b) < byte_bound(b.len()),
        le_bytes(le_value(b), b.len()) == b,
    decreases b.len(),
{
    if b.len() > 0 {
        let rest = b.drop_first();
        lemma_le_value(rest);
        let v = le_value(b);
        assert(v / 256 == le_value(rest) && v % 256 == b[0]);
        assert(seq![b[0]] + rest =~= b);
        assert((v % 256) as u8 == b[0]);
    } else {
        assert(le_bytes(0, 0) =~= b);
    }
}

/// Values that fit a width and have one encoding are equal.
pub proof fn lemma_le_bytes_injective(a: int, b: int, len: nat)
    requires
        0 <= a < byte_bound(len),
        0 <= b < byte_bound(len),
        le_bytes(a, len) == le_bytes(b, len),
    ensures
        a == b,
{
    lemma_le_bytes(a, len);
    lemma_le_bytes(b, len);
}

/// Encoding most significant byte first has the requested width, and decoding
/// undoes it.
pub proof fn lemma_be_bytes(v: int, len: nat)
    ensures
        be_bytes(v, len).len() == len,
        0 <= v < byte_bound(len) ==> be_value(be_bytes(v, len)) == v,
{
    lemma_le_bytes(v, len);
    assert(le_bytes(v, len).reverse().reverse() =~= le_bytes(v, len));
}

/// Decoding most significant byte first stays in range, and encoding recovers the
/// bytes.
pub proof fn lemma_be_value(b: Seq<u8>)
    ensures
        0 <= be_value(b) < byte_bound(b.len()),
        be_bytes(be_value(b), b.len()) == b,
{
    lemma_le_value(b.reverse());
    assert(b.reverse().reverse() =~= b);
}

/// The widths that occur.
pub proof fn lemma_byte_bounds()
    ensures
        byte_bound(4) == 0x1_0000_0000,
        byte_bound(8) == 0x1_0000_0000_0000_0000,
{
    reveal_with_fuel(byte_bound, 9);
}

/// The first field of a concatenation whose fields have one width.
pub proof fn lemma_concat_split(a: Seq<u8>, b: Seq<u8>, c: Seq<u8>, d: Seq<u8>)
    requires
        a.len() == c.len(),
        a + b == c + d,
    ensures
        a == c,
        b == d,
{
    assert(a =~= (a + b).subrange(0, a.len() as int));
    assert(c =~= (c + d).subrange(0, c.len() as int));
    assert(b =~= (a + b).subrange(a.len() as int, (a + b).len() as int));
    assert(d =~= (c + d).subrange(c.len() as int, (c + d).len() as int));
}

/// Appends `s` to `out`.
pub fn put_slice(out: &mut Vec<u8>, s: &[u8])
    ensures
        final(out)@ == old(out)@ + s@,
{
    let ghost before = out@;
    let mut i: usize = 0;
    while i < s.len()
        invariant
            i <= s@.len(),
            out@ == before + s@.subrange(0, i as int),
        decreases s@.len() - i,
    {
        out.push(s[i]);
        i += 1;
        assert(s@.subrange(0, i as int) =~= s@.subrange(0, i as int - 1).push(s@[i as int - 1]));
    }
    assert(s@.subrange(0, i as int) =~= s@);
}

/// Appends `v` as four bytes, least significant first.
pub fn put_u32(out: &mut Vec<u8>, v: u32)
    ensures
        final(out)@ == old(out)@ + le_bytes(v as int, 4),
{
    let ghost before = out@;
    out.push((v % 256) as u8);
    out.push(((v / 256) % 256) as u8);
    out.push(((v / 65536) % 256) as u8);
    out.push(((v / 16777216) % 256) as u8);
    proof {
        reveal_with_fuel(le_bytes, 5);
        assert(out@ =~= before + le_bytes(v as int, 4));
    }
}

/// Appends `v` as eight bytes, least significant first.
pub fn put_u64(out: &mut Vec<u8>, v: u64)
    ensures
        final(out)@ == old(out)@ + le_bytes(v as int, 8),
{
    let ghost before = out@;
    let mut i: usize = 0;
    let mut w: u64 = v;
    while i < 8
        invariant
            i <= 8,
            out@ + le_bytes(w as int, (8 - i) as nat) == before + le_bytes(v as int, 8),
        decreases 8 - i,
    {
        let ghost held = out@;
        let ghost rest = le_bytes(w as int / 256, (7 - i) as nat);
        assert(le_bytes(w as int, (8 - i) as nat) == seq![(w as int % 256) as u8] + rest);
        out.push((w % 256) as u8);
        assert(held + (seq![(w as int % 256) as u8] + rest) =~= out@ + rest);
        w = w / 256;
        i += 1;
    }
    assert(out@ + le_bytes(w as int, 0) =~= out@);
}

/// Appends the length of a byte string as eight bytes.
pub fn put_len(out: &mut Vec<u8>, len: usize)
    ensures
        final(out)@ == old(out)@ + le_bytes(len as int, 8),
{
    put_u64(out, len as u64)
}

/// A byte string preceded by its length, in eight bytes.
pub open spec fn prefixed(b: Seq<u8>) -> Seq<u8> {
    le_bytes(b.len() as int, 8) + b
}

/// A length-prefixed field at the start determines where it ends.
pub proof fn lemma_prefixed_split(a: Seq<u8>, b: Seq<u8>, c: Seq<u8>, d: Seq<u8>)
    requires
        a.len() <= u64::MAX,
        c.len() <= u64::MAX,
        prefixed(a) + b == prefixed(c) + d,
    ensures
        a == c,
        b == d,
{
    lemma_byte_bounds();
    let (la, lc) = (le_bytes(a.len() as int, 8), le_bytes(c.len() as int, 8));
    lemma_le_bytes(a.len() as int, 8);
    lemma_le_bytes(c.len() as int, 8);
    assert(prefixed(a) + b =~= la + (a + b));
    assert(prefixed(c) + d =~= lc + (c + d));
    lemma_concat_split(la, a + b, lc, c + d);
    lemma_le_bytes_injective(a.len() as int, c.len() as int, 8);
    lemma_concat_split(a, b, c, d);
}

/// The four bytes at `at`, as an integer.
pub fn get_u32(b: &[u8], at: usize) -> (r: u32)
    requires
        at + 4 <= b@.len(),
    ensures
        r as int == le_value(b@.subrange(at as int, at + 4)),
{
    let ghost s = b@.subrange(at as int, at + 4);
    proof {
        reveal_with_fuel(le_value, 5);
        assert(s.drop_first().drop_first().drop_first().drop_first().len() == 0);
        assert(s[0] == b@[at as int]);
        assert(s.drop_first()[0] == b@[at + 1]);
        assert(s.drop_first().drop_first()[0] == b@[at + 2]);
        assert(s.drop_first().drop_first().drop_first()[0] == b@[at + 3]);
    }
    b[at] as u32 + 256 * (b[at + 1] as u32) + 65536 * (b[at + 2] as u32) + 16777216 * (b[at
        + 3] as u32)
}

/// The eight bytes at `at`, as an integer.
pub fn get_u64(b: &[u8], at: usize) -> (r: u64)
    requires
        at + 8 <= b@.len(),
    ensures
        r as int == le_value(b@.subrange(at as int, at + 8)),
{
    let lo: u32 = get_u32(b, at);
    assert(b.len() <= usize::MAX);
    let hi: u32 = get_u32(b, at + 4);
    proof {
        let s = b@.subrange(at as int, at + 8);
        let t = b@.subrange(at + 4, at + 8);
        reveal_with_fuel(le_value, 5);
        assert(s.drop_first().drop_first().drop_first().drop_first() =~= t);
        let f = b@.subrange(at as int, at + 4);
        assert(f.drop_first().drop_first().drop_first().drop_first().len() == 0);
        assert(f[0] == s[0]);
        assert(f.drop_first()[0] == s.drop_first()[0]);
        assert(f.drop_first().drop_first()[0] == s.drop_first().drop_first()[0]);
        assert(f.drop_first().drop_first().drop_first()[0]
            == s.drop_first().drop_first().drop_first()[0]);
    }
    lo as u64 + 4294967296 * (hi as u64)
}

/// A copy of `b[from..to]`.
pub fn slice_to_vec(b: &[u8], from: usize, to: usize) -> (r: Vec<u8>)
    requires
        from <= to <= b@.len(),
    ensures
        r@ == b@.subrange(from as int, to as int),
{
    let mut out: Vec<u8> = Vec::new();
    let mut i: usize = from;
    while i < to
        invariant
            from <= i <= to <= b@.len(),
            out@ == b@.subrange(from as int, i as int),
        decreases to - i,
    {
        out.push(b[i]);
        i += 1;
        assert(b@.subrange(from as int, i as int) =~= b@.subrange(from as int, i - 1).push(
            b@[i - 1],
        ));
    }
    out
}

/// The thirty-two bytes at `at`, as an array.
pub fn get_array32(b: &[u8], at: usize) -> (r: [u8; 32])
    requires
        at + 32 <= b@.len(),
    ensures
        r@ == b@.subrange(at as int, at + 32),
{
    let mut out: [u8; 32] = [0u8; 32];
    let mut i: usize = 0;
    while i < 32
        invariant
            i <= 32,
            at + 32 <= b.len(),
            forall|j: int| 0 <= j < i ==> out@[j] == b@[at + j],
        decreases 32 - i,
    {
        out[i] = b[at + i];
        i += 1;
    }
    assert(out@ =~= b@.subrange(at as int, at + 32));
    out
}

/// Whether two byte strings are equal.
pub fn bytes_eq(a: &[u8], b: &[u8]) -> (r: bool)
    ensures
        r == (a@ == b@),
{
    if a.len() != b.len() {
        return false;
    }
    let mut i: usize = 0;
    while i < a.len()
        invariant
            i <= a@.len(),
            a@.len() == b@.len(),
            forall|j: int| 0 <= j < i ==> a@[j] == b@[j],
        decreases a@.len() - i,
    {
        if a[i] != b[i] {
            return false;
        }
        i += 1;
    }
    assert(a@ =~= b@);
    true
}

/// A copy of a vector of values that can be copied.
pub fn copy_vec<T: Copy>(v: &[T]) -> (r: Vec<T>)
    ensures
        r@ == v@,
{
    let mut out: Vec<T> = Vec::new();
    let mut i: usize = 0;
    while i < v.len()
        invariant
            i <= v@.len(),
            out@ == v@.subrange(0, i as int),
        decreases v@.len() - i,
    {
        out.push(v[i]);
        i += 1;
        assert(v@.subrange(0, i as int) =~= v@.subrange(0, i - 1).push(v@[i - 1]));
    }
    assert(v@.subrange(0, i as int) =~= v@);
    out
}

} // verus!

//! Hexadecimal text.
use vstd::prelude::*;

verus! {

/// The hexadecimal digit of a value below sixteen, lower case.
pub open spec fn hex_digit(v: u8) -> char {
    if v < 10 {
        (v + 48) as u8 as char
    } else {
        (v + 87) as u8 as char
    }
}

/// The hexadecimal text of a byte string, two digits to a byte.
pub open spec fn hex_text(b: Seq<u8>) -> Seq<char>
    decreases b.len(),
{
    if b.len() == 0 {
        Seq::empty()
    } else {
        hex_text(b.drop_last()).push(hex_digit(b.last() / 16)).push(hex_digit(b.last() % 16))
    }
}

/// `String::push` appends a character.
pub assume_specification[ String::push ](s: &mut String, c: char)
    ensures
        final(s)@ == old(s)@.push(c),
;

/// The hexadecimal digit of a value below sixteen.
pub fn digit(v: u8) -> (r: char)
    requires
        v < 16,
    ensures
        r == hex_digit(v),
{
    if v < 10 {
        (v + 48) as char
    } else {
        (v + 87) as char
    }
}

/// Appends the two hexadecimal digits of a byte.
pub fn push_hex(out: &mut String, b: u8)
    ensures
        final(out)@ == old(out)@.push(hex_digit(b / 16)).push(hex_digit(b % 16)),
{
    out.push(digit(b / 16));
    out.push(digit(b % 16));
}

/// The hexadecimal text of a byte string.
pub fn hex_string(b: &[u8]) -> (r: String)
    ensures
        r@ == hex_text(b@),
{
    let mut out = String::new();
    let mut i: usize = 0;
    assert(out@ =~= hex_text(b@.subrange(0, 0)));
    while i < b.len()
        invariant
            i <= b@.len(),
            out@ == hex_text(b@.subrange(0, i as int)),
        decreases b@.len() - i,
    {
        push_hex(&mut out, b[i]);
        proof {
            assert(b@.subrange(0, i as int + 1).drop_last() =~= b@.subrange(0, i as int));
        }
        i += 1;
    }
    assert(b@.subrange(0, i as int) =~= b@);
    out
}

/// The hexadecimal text of a byte string has two digits to a byte, and byte strings with one
/// text are one byte string.
pub proof fn law_hex_text_injective(a: Seq<u8>, b: Seq<u8>)
    ensures
        hex_text(a).len() == 2 * a.len(),
        hex_text(a) == hex_text(b) <==> a == b,
    decreases a.len() + b.len(),
{
    lemma_hex_len(a);
    lemma_hex_len(b);
    if a.len() > 0 && hex_text(a) == hex_text(b) {
        let (x, y) = (a.last(), b.last());
        let (s, t) = (hex_text(a), hex_text(b));
        let n = s.len() as int;
        law_hex_text_injective(a.drop_last(), b.drop_last());
        assert(s[n - 1] == hex_digit(x % 16) && t[n - 1] == hex_digit(y % 16));
        assert(s[n - 2] == hex_digit(x / 16) && t[n - 2] == hex_digit(y / 16));
        lemma_hex_digit(x % 16, y % 16);
        lemma_hex_digit(x / 16, y / 16);
        assert(x == y);
        assert(s.subrange(0, n - 2) =~= hex_text(a.drop_last()));
        assert(t.subrange(0, n - 2) =~= hex_text(b.drop_last()));
        assert(a =~= a.drop_last().push(x));
        assert(b =~= b.drop_last().push(y));
    } else if a.len() == 0 && b.len() == 0 {
        assert(a =~= b);
    }
}

proof fn lemma_hex_len(a: Seq<u8>)
    ensures
        hex_text(a).len() == 2 * a.len(),
    decreases a.len(),
{
    if a.len() > 0 {
        lemma_hex_len(a.drop_last());
    }
}

/// Hexadecimal digits are distinct.
proof fn lemma_hex_digit(v: u8, w: u8)
    requires
        v < 16,
        w < 16,
        hex_digit(v) == hex_digit(w),
    ensures
        v == w,
{
    assert(hex_digit(v) as int == if v < 10 {
        v + 48
    } else {
        v + 87
    });
    assert(hex_digit(w) as int == if w < 10 {
        w + 48
    } else {
        w + 87
    });
}

/// The digits are the hexadecimal ones, in order and in lower case.
pub proof fn law_hex_digits(v: u8)
    requires
        v < 16,
    ensures
        hex_digit(v) == "0123456789abcdef"@[v as int],
{
    reveal_strlit("0123456789abcdef");
}

} // verus!

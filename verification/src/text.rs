//! Text made of literals and decimal numbers.
use vstd::prelude::*;
use vstd::string::*;

verus! {

/// The decimal digits of a number.
pub open spec fn decimal(v: nat) -> Seq<char>
    decreases v,
{
    if v < 10 {
        seq![decimal_digit(v)]
    } else {
        decimal(v / 10).push(decimal_digit(v % 10))
    }
}

/// A decimal digit.
pub open spec fn decimal_digit(v: nat) -> char {
    (v + 48) as u8 as char
}

/// Appends text.
pub fn put_text(out: &mut String, s: &str)
    ensures
        final(out)@ == old(out)@ + s@,
{
    out.append(s);
}

/// Appends the decimal digits of a number.
pub fn put_decimal(out: &mut String, v: u64)
    ensures
        final(out)@ == old(out)@ + decimal(v as nat),
    decreases v,
{
    let ghost before = out@;
    if v >= 10 {
        put_decimal(out, v / 10);
    }
    let d: u8 = (v % 10) as u8;
    out.push((d + 48) as char);
    assert(out@ =~= before + decimal(v as nat));
}

/// Numbers in decimal, with a comma and a space between any two.
pub open spec fn decimal_items(v: Seq<u32>) -> Seq<char>
    decreases v.len(),
{
    if v.len() == 0 {
        Seq::empty()
    } else if v.len() == 1 {
        decimal(v[0] as nat)
    } else {
        decimal_items(v.drop_last()) + ", "@ + decimal(v.last() as nat)
    }
}

/// Appends numbers in decimal, in square brackets.
pub fn put_decimals(out: &mut String, v: &[u32])
    ensures
        final(out)@ == old(out)@ + "["@ + decimal_items(v@) + "]"@,
{
    let ghost before = out@ + "["@;
    put_text(out, "[");
    let mut i: usize = 0;
    assert(out@ =~= before + decimal_items(v@.subrange(0, 0)));
    while i < v.len()
        invariant
            i <= v@.len(),
            out@ == before + decimal_items(v@.subrange(0, i as int)),
        decreases v@.len() - i,
    {
        let ghost done = v@.subrange(0, i as int);
        let ghost next = v@.subrange(0, i as int + 1);
        assert(next.drop_last() =~= done);
        if i > 0 {
            put_text(out, ", ");
        }
        put_decimal(out, v[i] as u64);
        assert(out@ =~= before + decimal_items(next));
        i += 1;
    }
    assert(v@.subrange(0, v@.len() as int) =~= v@);
    put_text(out, "]");
}

/// The number that some decimal digits denote.
pub open spec fn denoted(s: Seq<char>) -> int
    decreases s.len(),
{
    if s.len() == 0 {
        0
    } else {
        10 * denoted(s.drop_last()) + (s.last() as int - 48)
    }
}

/// The decimal text of a number denotes it, in digits, without a zero in front.
pub proof fn law_decimal_denotes(v: nat)
    ensures
        denoted(decimal(v)) == v,
        decimal(v).len() > 0,
        forall|i: int|
            0 <= i < decimal(v).len() ==> 48 <= (#[trigger] decimal(v)[i]) as int <= 57,
        v > 0 ==> decimal(v)[0] as int != 48,
    decreases v,
{
    reveal_with_fuel(denoted, 2);
    let s = decimal(v);
    if v >= 10 {
        let head = decimal(v / 10);
        law_decimal_denotes(v / 10);
        assert(s.drop_last() =~= head);
        assert(decimal_digit(v % 10) as int == v % 10 + 48);
        assert forall|i: int| 0 <= i < s.len() implies 48 <= (#[trigger] s[i]) as int <= 57 by {
            if i < head.len() {
                assert(s[i] == head[i]);
            }
        }
        assert(s[0] == head[0]);
    } else {
        assert(decimal_digit(v) as int == v + 48);
        assert(s.drop_last() =~= Seq::empty());
    }
}

/// Numbers with one text are one number.
pub proof fn law_decimal_injective(a: nat, b: nat)
    ensures
        decimal(a) == decimal(b) <==> a == b,
{
    law_decimal_denotes(a);
    law_decimal_denotes(b);
}

/// The bytes of a text in ASCII.
pub open spec fn ascii(s: Seq<char>) -> Seq<u8> {
    Seq::new(s.len(), |i: int| s[i] as u8)
}

} // verus!

//! Polynomials over scalars and in the exponent, and the encoding of a sequence
//! of points.
use vstd::arithmetic::div_mod::lemma_small_mod;
use vstd::prelude::*;

use crate::bytes::{lemma_concat_split, put_slice, slice_to_vec};
use crate::curve::{
    has_encoding, lemma_encodings, logs, ord, vals, OsstPoint, OsstScalar,
};
use crate::math::{lemma_mod_add, lemma_mod_mul, poly};

verus! {

/// Evaluates the polynomial with coefficients `c` at `x`, by Horner's method.
pub fn eval_scalars<S: OsstScalar>(c: &[S], x: u32) -> (r: S)
    ensures
        r.val() == poly(vals(c@), x as int) % S::order(),
{
    let ghost n = S::order();
    let ghost v = vals(c@);
    proof {
        S::lemma_order();
    }
    let at = S::from_u32(x);
    let mut result = S::zero();
    let mut i: usize = c.len();
    proof {
        assert(v.subrange(i as int, v.len() as int).len() == 0);
        lemma_small_mod(0, n as nat);
    }
    while i > 0
        invariant
            i <= c@.len(),
            n == S::order(),
            n > 0,
            v == vals(c@),
            at.val() == x,
            result.val() == poly(v.subrange(i as int, v.len() as int), x as int) % n,
        decreases i,
    {
        i -= 1;
        let ghost rest = v.subrange(i as int + 1, v.len() as int);
        let ghost whole = v.subrange(i as int, v.len() as int);
        result = result.mul(&at);
        result = result.add(&c[i]);
        proof {
            assert(whole.drop_first() =~= rest);
            assert(whole[0] == v[i as int]);
            let e = poly(rest, x as int);
            lemma_mod_mul(e, x as int, n);
            lemma_mod_add(e * x, v[i as int], n);
            assert(e * x == x * e) by (nonlinear_arith);
        }
    }
    assert(v.subrange(0, v.len() as int) =~= v);
    result
}

/// Evaluates a polynomial given in the exponent at `x`, by Horner's method.
pub fn eval_points<P: OsstPoint>(c: &[P], x: u32) -> (r: P)
    ensures
        r.log() == poly(logs(c@), x as int) % ord::<P>(),
{
    let ghost n = ord::<P>();
    let ghost v = logs(c@);
    proof {
        <P::Scalar as OsstScalar>::lemma_order();
    }
    let at = <P::Scalar as OsstScalar>::from_u32(x);
    let mut result = P::identity();
    let mut i: usize = c.len();
    proof {
        assert(v.subrange(i as int, v.len() as int).len() == 0);
        lemma_small_mod(0, n as nat);
    }
    while i > 0
        invariant
            i <= c@.len(),
            n == ord::<P>(),
            n > 0,
            v == logs(c@),
            at.val() == x,
            result.log() == poly(v.subrange(i as int, v.len() as int), x as int) % n,
        decreases i,
    {
        i -= 1;
        let ghost rest = v.subrange(i as int + 1, v.len() as int);
        let ghost whole = v.subrange(i as int, v.len() as int);
        result = result.mul_scalar(&at);
        result = result.add(&c[i]);
        proof {
            assert(whole.drop_first() =~= rest);
            assert(whole[0] == v[i as int]);
            let e = poly(rest, x as int);
            lemma_mod_mul(e, x as int, n);
            lemma_mod_add(e * x, v[i as int], n);
            assert(e * x == x * e) by (nonlinear_arith);
        }
    }
    assert(v.subrange(0, v.len() as int) =~= v);
    result
}

/// The generator times a scalar.
pub fn base_mul<P: OsstPoint>(s: &P::Scalar) -> (r: P)
    ensures
        r.log() == s.val(),
{
    let r = P::generator().mul_scalar(s);
    proof {
        s.lemma_val();
        assert(1 * s.val() == s.val());
        lemma_small_mod(s.val() as nat, ord::<P>() as nat);
    }
    r
}

/// Commits to each coefficient: the generator times it.
pub fn commit_scalars<P: OsstPoint>(c: &[P::Scalar]) -> (r: Vec<P>)
    ensures
        logs(r@) == vals(c@),
{
    let mut out: Vec<P> = Vec::new();
    let mut i: usize = 0;
    while i < c.len()
        invariant
            i <= c@.len(),
            out@.len() == i,
            forall|k: int| 0 <= k < i ==> (#[trigger] out@[k]).log() == c@[k].val(),
        decreases c@.len() - i,
    {
        out.push(base_mul::<P>(&c[i]));
        i += 1;
    }
    assert(logs(out@) =~= vals(c@));
    out
}

// ---------------------------------------------------------------------------
// Encoding
// ---------------------------------------------------------------------------

/// The encodings of a sequence of points, one after the other.
pub open spec fn points_bytes<P: OsstPoint>(ks: Seq<int>) -> Seq<u8>
    decreases ks.len(),
{
    if ks.len() == 0 {
        Seq::empty()
    } else {
        points_bytes::<P>(ks.drop_last()) + P::encoding(ks.last())
    }
}

/// The first `count` points that `b` encodes, if it encodes as many.
pub open spec fn decode_points<P: OsstPoint>(b: Seq<u8>, count: nat) -> Option<Seq<int>>
    decreases count,
{
    if count == 0 {
        Some(Seq::empty())
    } else {
        let at = (count - 1) * P::COMPRESSED_SIZE;
        match (
            decode_points::<P>(b, (count - 1) as nat),
            P::decode(b.subrange(at, at + P::COMPRESSED_SIZE)),
        ) {
            (Some(ks), Some(k)) => Some(ks.push(k)),
            _ => None,
        }
    }
}

/// Decoding the first points looks at their bytes alone.
proof fn lemma_decode_prefix<P: OsstPoint>(b: Seq<u8>, c: Seq<u8>, count: nat)
    requires
        b.len() <= c.len(),
        b.len() == count * P::COMPRESSED_SIZE,
        c.subrange(0, b.len() as int) == b,
    ensures
        decode_points::<P>(b, count) == decode_points::<P>(c, count),
    decreases count,
{
    if count > 0 {
        let size = P::COMPRESSED_SIZE as int;
        let m = (count - 1) as nat;
        let at = m * P::COMPRESSED_SIZE;
        assert(at + size == count * P::COMPRESSED_SIZE && at >= 0) by (nonlinear_arith)
            requires
                at == (count - 1) * P::COMPRESSED_SIZE,
                size == P::COMPRESSED_SIZE,
                count >= 1,
        ;
        let head = b.subrange(0, at);
        assert(head =~= c.subrange(0, at)) by {
            assert forall|i: int| 0 <= i < at implies b[i] == c[i] by {
                assert(c.subrange(0, b.len() as int)[i] == c[i]);
            }
        }
        lemma_decode_prefix::<P>(head, b, m);
        lemma_decode_prefix::<P>(head, c, m);
        assert(b.subrange(at, at + size) =~= c.subrange(at, at + size)) by {
            assert forall|i: int| at <= i < at + size implies b[i] == c[i] by {
                assert(c.subrange(0, b.len() as int)[i] == c[i]);
            }
        }
    }
}

/// One more point at the end of what decodes.
pub proof fn lemma_decode_push<P: OsstPoint>(b: Seq<u8>, count: nat, e: Seq<u8>)
    requires
        b.len() == count * P::COMPRESSED_SIZE,
        e.len() == P::COMPRESSED_SIZE,
    ensures
        (b + e).len() == (count + 1) * P::COMPRESSED_SIZE,
        decode_points::<P>(b + e, count + 1) == match (
            decode_points::<P>(b, count),
            P::decode(e),
        ) {
            (Some(ks), Some(k)) => Some(ks.push(k)),
            _ => None,
        },
{
    let c = b + e;
    assert((count + 1) * P::COMPRESSED_SIZE == count * P::COMPRESSED_SIZE + P::COMPRESSED_SIZE)
        by (nonlinear_arith);
    assert(c.subrange(0, b.len() as int) =~= b);
    lemma_decode_prefix::<P>(b, c, count);
    assert(c.subrange(b.len() as int, (b.len() + e.len()) as int) =~= e);
}

/// Appends the encodings of `points` to `out`.
pub fn put_points<P: OsstPoint>(out: &mut Vec<u8>, points: &[P])
    ensures
        final(out)@ == old(out)@ + points_bytes::<P>(logs(points@)),
        points_bytes::<P>(logs(points@)).len() == points@.len() * P::COMPRESSED_SIZE,
        decode_points::<P>(points_bytes::<P>(logs(points@)), points@.len()) == Some(logs(points@)),
{
    let ghost before = out@;
    let ghost ks = logs(points@);
    let mut i: usize = 0;
    proof {
        assert(ks.subrange(0, 0).len() == 0);
        assert(before + points_bytes::<P>(ks.subrange(0, 0)) =~= before);
        assert(0 * P::COMPRESSED_SIZE == 0) by (nonlinear_arith);
        assert(ks.subrange(0, 0) =~= Seq::empty());
    }
    while i < points.len()
        invariant
            i <= points@.len(),
            ks == logs(points@),
            out@ == before + points_bytes::<P>(ks.subrange(0, i as int)),
            points_bytes::<P>(ks.subrange(0, i as int)).len() == i * P::COMPRESSED_SIZE,
            decode_points::<P>(points_bytes::<P>(ks.subrange(0, i as int)), i as nat) == Some(
                ks.subrange(0, i as int),
            ),
        decreases points@.len() - i,
    {
        let e = points[i].compress_vec();
        put_slice(out, &e);
        proof {
            let head = ks.subrange(0, i as int);
            let next = ks.subrange(0, i as int + 1);
            assert(next.drop_last() =~= head);
            assert(next =~= head.push(ks[i as int]));
            lemma_decode_push::<P>(points_bytes::<P>(head), i as nat, e@);
            assert(before + (points_bytes::<P>(head) + e@) =~= out@);
        }
        i += 1;
    }
    assert(ks.subrange(0, i as int) =~= ks);
}

/// Reads `count` points from `b`, which holds exactly as many encodings.
pub fn get_points<P: OsstPoint>(b: &[u8], count: usize) -> (r: Option<Vec<P>>)
    requires
        b@.len() == count * P::COMPRESSED_SIZE,
    ensures
        r is Some <==> decode_points::<P>(b@, count as nat) is Some,
        r matches Some(v) ==> decode_points::<P>(b@, count as nat) == Some(logs(v@)),
{
    let mut out: Vec<P> = Vec::new();
    let mut i: usize = 0;
    proof {
        assert(0 * P::COMPRESSED_SIZE == 0) by (nonlinear_arith);
        assert(logs(out@) =~= Seq::empty());
    }
    while i < count
        invariant
            i <= count,
            b.len() == count * P::COMPRESSED_SIZE,
            out@.len() == i,
            decode_points::<P>(b@, i as nat) == Some(logs(out@)),
        decreases count - i,
    {
        assert(i * P::COMPRESSED_SIZE + P::COMPRESSED_SIZE == (i + 1) * P::COMPRESSED_SIZE && (i + 1)
            * P::COMPRESSED_SIZE <= count * P::COMPRESSED_SIZE && 0 <= i * P::COMPRESSED_SIZE)
            by (nonlinear_arith)
            requires
                i < count,
        ;
        let at: usize = i * P::COMPRESSED_SIZE;
        let piece = slice_to_vec(b, at, at + P::COMPRESSED_SIZE);
        match P::decompress(&piece) {
            Some(p) => {
                let ghost held = out@;
                out.push(p);
                assert(logs(out@) =~= logs(held).push(p.log()));
            },
            None => {
                proof {
                    lemma_decode_none::<P>(b@, i as nat + 1, count as nat);
                }
                return None;
            },
        }
        i += 1;
    }
    Some(out)
}

/// What fails to decode early fails to decode.
proof fn lemma_decode_none<P: OsstPoint>(b: Seq<u8>, j: nat, count: nat)
    requires
        j <= count,
        decode_points::<P>(b, j) is None,
    ensures
        decode_points::<P>(b, count) is None,
    decreases count,
{
    if j < count {
        lemma_decode_none::<P>(b, j, (count - 1) as nat);
    }
}

/// Points have one encoding: bytes that decode to some points are what the points are
/// written as, and what is written decodes.
pub proof fn law_points_round_trip<P: OsstPoint>(ks: Seq<int>, b: Seq<u8>)
    requires
        forall|i: int| 0 <= i < ks.len() ==> has_encoding::<P>(#[trigger] ks[i]),
        b.len() == ks.len() * P::COMPRESSED_SIZE,
    ensures
        points_bytes::<P>(ks).len() == ks.len() * P::COMPRESSED_SIZE,
        decode_points::<P>(b, ks.len()) == Some(ks) <==> b == points_bytes::<P>(ks),
    decreases ks.len(),
{
    let size = P::COMPRESSED_SIZE as int;
    if ks.len() == 0 {
        assert(0 * size == 0) by (nonlinear_arith);
        assert(b =~= points_bytes::<P>(ks));
        assert(ks =~= Seq::empty());
    } else {
        let m = (ks.len() - 1) as nat;
        let at = m * P::COMPRESSED_SIZE;
        let rest = ks.drop_last();
        assert(at + size == ks.len() * P::COMPRESSED_SIZE && at >= 0) by (nonlinear_arith)
            requires
                at == (ks.len() - 1) * P::COMPRESSED_SIZE,
                size == P::COMPRESSED_SIZE,
                ks.len() >= 1,
        ;
        let (head, tail) = (b.subrange(0, at), b.subrange(at, at + size));
        assert(b =~= head + tail);
        assert forall|i: int| 0 <= i < rest.len() implies has_encoding::<P>(#[trigger] rest[i]) by {
            assert(rest[i] == ks[i]);
        }
        law_points_round_trip::<P>(rest, head);
        assert(ks.last() == ks[m as int]);
        lemma_encodings::<P>(ks.last(), ks.last());
        P::lemma_decode(tail);
        lemma_decode_push::<P>(head, m, tail);
        assert(ks =~= rest.push(ks.last()));
        if b == points_bytes::<P>(ks) {
            lemma_concat_split(head, tail, points_bytes::<P>(rest), P::encoding(ks.last()));
        }
        match decode_points::<P>(b, ks.len()) {
            Some(ds) => {
                if ds == ks {
                    assert(ds.drop_last() =~= rest);
                    assert(ds.last() == ks.last());
                    let d = decode_points::<P>(head, m)->0;
                    assert(d.push(P::decode(tail)->0).drop_last() =~= d);
                }
            },
            None => {},
        }
    }
}

/// Committing and evaluating commute: the committed polynomial's value in the exponent is
/// the commitment to its value.
pub proof fn law_evaluation_commutes<P: OsstPoint>(
    polynomial: &[P::Scalar],
    committed: Vec<P>,
    slice: &[P],
    x: u32,
    value: P::Scalar,
    committed_value: P,
    in_exponent: P,
)
    requires
        call_ensures(commit_scalars::<P>, (polynomial,), committed),
        slice@ == committed@,
        call_ensures(eval_scalars::<P::Scalar>, (polynomial, x), value),
        call_ensures(base_mul::<P>, (&value,), committed_value),
        call_ensures(eval_points::<P>, (slice, x), in_exponent),
    ensures
        in_exponent.log() == committed_value.log(),
        value.val() == poly(vals(polynomial@), x as int) % ord::<P>(),
{
}

/// Points that were decoded have encodings.
pub proof fn lemma_decoded<P: OsstPoint>(b: Seq<u8>, count: nat)
    ensures
        decode_points::<P>(b, count) matches Some(ks) ==> ks.len() == count && forall|i: int|
            0 <= i < ks.len() ==> has_encoding::<P>(#[trigger] ks[i]),
    decreases count,
{
    if count > 0 {
        let m = (count - 1) as nat;
        let at = m * P::COMPRESSED_SIZE;
        lemma_decoded::<P>(b, m);
        P::lemma_decode(b.subrange(at, at + P::COMPRESSED_SIZE));
    }
}

} // verus!

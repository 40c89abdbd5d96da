//! Sets of share indices, kept as sorted vectors.
use vstd::prelude::*;
use vstd::seq_lib::{group_to_multiset_ensures, lemma_multiset_commutative};
use vstd::set_lib::lemma_subset_equality;

use crate::error::OsstError;
use crate::math::sum;

verus! {

/// Strictly ascending, hence without repetition.
pub open spec fn ascending(s: Seq<u32>) -> bool {
    forall|i: int, j: int| 0 <= i < j < s.len() ==> s[i] < s[j]
}

/// Ascending, possibly with repetition.
pub open spec fn sorted(s: Seq<u32>) -> bool {
    forall|i: int, j: int| 0 <= i <= j < s.len() ==> s[i] <= s[j]
}

/// `d` occurs more than once.
pub open spec fn repeats(s: Seq<u32>, d: u32) -> bool {
    s.to_multiset().count(d) >= 2
}

/// `d` is the least index that occurs more than once.
pub open spec fn least_repeated(s: Seq<u32>, d: u32) -> bool {
    repeats(s, d) && forall|e: u32| #[trigger] repeats(s, e) ==> d <= e
}

/// Why `s` is not a set of share indices, if it is not: it is empty, an index
/// occurs twice, or an index is zero.
pub open spec fn index_set_error(s: Seq<u32>, e: OsstError) -> bool {
    if s.len() == 0 {
        e == OsstError::EmptyContributions
    } else if !s.no_duplicates() {
        e matches OsstError::DuplicateIndex(d) && least_repeated(s, d)
    } else {
        s.contains(0) && e == OsstError::InvalidIndex
    }
}

/// `s` is a nonempty set of share indices.
pub open spec fn is_index_set(s: Seq<u32>) -> bool {
    s.len() > 0 && s.no_duplicates() && !s.contains(0)
}

/// `<[u32]>::sort_unstable` puts the elements in ascending order.
#[verifier::external_body]
fn sort_indices(v: &mut Vec<u32>)
    ensures
        sorted(final(v)@),
        final(v)@.to_multiset() == old(v)@.to_multiset(),
{
    v.sort_unstable()
}

/// A sequence with the elements of one without repetition is without
/// repetition, and has no other elements.
proof fn lemma_same_elements(a: Seq<u32>, b: Seq<u32>)
    requires
        a.to_multiset() == b.to_multiset(),
    ensures
        a.len() == b.len(),
        a.no_duplicates() <==> b.no_duplicates(),
        forall|d: u32| a.contains(d) <==> b.contains(d),
        forall|d: u32| repeats(a, d) <==> repeats(b, d),
{
    broadcast use group_to_multiset_ensures;

    if a.no_duplicates() {
        a.lemma_multiset_has_no_duplicates();
        b.lemma_multiset_has_no_duplicates_conv();
    }
    if b.no_duplicates() {
        b.lemma_multiset_has_no_duplicates();
        a.lemma_multiset_has_no_duplicates_conv();
    }
    assert forall|d: u32| a.contains(d) <==> b.contains(d) by {
        assert(a.contains(d) <==> a.to_multiset().count(d) > 0);
        assert(b.contains(d) <==> b.to_multiset().count(d) > 0);
    }
    assert(a.to_multiset().len() == a.len());
    assert(b.to_multiset().len() == b.len());
}

/// The first of two equal neighbours in a sorted sequence that ascends strictly
/// up to there is the least repeated element.
proof fn lemma_first_repeat(s: Seq<u32>, i: int)
    requires
        sorted(s),
        0 <= i < s.len() - 1,
        s[i] == s[i + 1],
        ascending(s.subrange(0, i + 1)),
    ensures
        least_repeated(s, s[i]),
        !s.no_duplicates(),
{
    broadcast use group_to_multiset_ensures;

    let a = s.subrange(0, i + 1);
    let b = s.subrange(i + 1, s.len() as int);
    let d = s[i];
    assert(s =~= a + b);
    lemma_multiset_commutative(a, b);
    assert(a[i] == d && b[0] == d);
    assert(a.contains(d) && b.contains(d));
    assert(a.to_multiset().count(d) > 0 && b.to_multiset().count(d) > 0);
    assert(repeats(s, d));
    assert forall|e: u32| #[trigger] repeats(s, e) implies d <= e by {
        if e < d {
            assert(!b.contains(e)) by {
                if b.contains(e) {
                    let k = choose|k: int| 0 <= k < b.len() && b[k] == e;
                    assert(s[i] <= s[i + 1 + k]);
                }
            }
            assert(b.to_multiset().count(e) == 0);
            assert(a.no_duplicates());
            a.lemma_multiset_has_no_duplicates();
            if a.contains(e) {
                assert(a.to_multiset().contains(e));
            }
        }
    }
}

/// Sequences with the same elements, each as often, have one length.
pub proof fn lemma_same_length(a: Seq<u32>, b: Seq<u32>)
    requires
        a.to_multiset() == b.to_multiset(),
    ensures
        a.len() == b.len(),
{
    lemma_same_elements(a, b);
}

/// The set that `indices` lists, in ascending order.
///
/// # Errors
///
/// [`OsstError::EmptyContributions`] if there is none,
/// [`OsstError::DuplicateIndex`] if one occurs twice, and
/// [`OsstError::InvalidIndex`] if one is zero.
pub fn index_set(indices: &[u32]) -> (r: Result<Vec<u32>, OsstError>)
    ensures
        r is Ok <==> is_index_set(indices@),
        r matches Ok(v) ==> ascending(v@) && v@.to_multiset() == indices@.to_multiset(),
        r matches Ok(v) ==> is_index_set(v@) && forall|d: u32|
            v@.contains(d) <==> #[trigger] indices@.contains(d),
        r matches Err(e) ==> index_set_error(indices@, e),
{
    if indices.len() == 0 {
        return Err(OsstError::EmptyContributions);
    }
    let mut v = crate::bytes::copy_vec(indices);
    sort_indices(&mut v);
    proof {
        lemma_same_elements(v@, indices@);
    }
    let mut i: usize = 1;
    while i < v.len()
        invariant
            1 <= i <= v@.len(),
            sorted(v@),
            v@.to_multiset() == indices@.to_multiset(),
            indices@.len() > 0,
            ascending(v@.subrange(0, i as int)),
        decreases v@.len() - i,
    {
        if v[i - 1] == v[i] {
            proof {
                lemma_first_repeat(v@, i - 1);
                lemma_same_elements(v@, indices@);
                assert forall|e: u32| #[trigger] repeats(indices@, e) implies v@[i - 1] <= e by {
                    assert(repeats(v@, e));
                }
            }
            return Err(OsstError::DuplicateIndex(v[i - 1]));
        }
        proof {
            let a = v@.subrange(0, i as int);
            let b = v@.subrange(0, i as int + 1);
            assert forall|j: int, k: int| 0 <= j < k < b.len() implies b[j] < b[k] by {
                if k < i {
                    assert(a[j] == b[j] && a[k] == b[k]);
                } else {
                    assert(v@[j] <= v@[i - 1]);
                    assert(v@[i - 1] <= v@[i as int]);
                }
            }
        }
        i += 1;
    }
    assert(v@.subrange(0, i as int) =~= v@);
    assert(v@.no_duplicates());
    if v[0] == 0 {
        assert(v@.contains(0));
        return Err(OsstError::InvalidIndex);
    }
    assert(!v@.contains(0)) by {
        if v@.contains(0) {
            let k = choose|k: int| 0 <= k < v@.len() && v@[k] == 0;
            assert(v@[0] <= v@[k]);
        }
    }
    Ok(v)
}

/// Ascending indices between one and `n` are at most `n`.
pub proof fn lemma_ascending_bound(s: Seq<u32>, n: u32)
    requires
        ascending(s),
        forall|i: int| 0 <= i < s.len() ==> 1 <= #[trigger] s[i] <= n,
    ensures
        s.len() <= n,
{
    if s.len() > 0 {
        lemma_ascending_rank(s, s.len() - 1);
    }
}

proof fn lemma_ascending_rank(s: Seq<u32>, i: int)
    requires
        ascending(s),
        0 <= i < s.len(),
        forall|i: int| 0 <= i < s.len() ==> 1 <= #[trigger] s[i],
    ensures
        s[i] >= i + 1,
    decreases i,
{
    if i > 0 {
        lemma_ascending_rank(s, i - 1);
        assert(s[i - 1] < s[i]);
    } else {
        assert(1 <= s[i]);
    }
}

/// Adds `x` to a set in ascending order, unless it is there.
pub fn insert_index(v: &mut Vec<u32>, x: u32)
    requires
        ascending(old(v)@),
    ensures
        ascending(final(v)@),
        forall|d: u32| #[trigger] final(v)@.contains(d) <==> old(v)@.contains(d) || d == x,
{
    let ghost a = v@;
    let mut at: usize = 0;
    while at < v.len() && v[at] < x
        invariant
            at <= v@.len(),
            a == v@,
            forall|j: int| 0 <= j < at ==> #[trigger] a[j] < x,
        decreases v@.len() - at,
    {
        at += 1;
    }
    if at < v.len() && v[at] == x {
        assert(a[at as int] == x);
        return ;
    }
    v.insert(at, x);
    proof {
        let b = v@;
        assert forall|j: int, k: int| 0 <= j < k < b.len() implies b[j] < b[k] by {
            if k < at {
                assert(a[j] < a[k]);
            } else if j < at && k > at {
                assert(a[j] < a[k - 1]);
            } else if j == at {
                if k - 1 > at {
                    assert(a[at as int] < a[k - 1]);
                }
            } else if j > at {
                assert(a[j - 1] < a[k - 1]);
            }
        }
        assert forall|d: u32| #[trigger] b.contains(d) <==> a.contains(d) || d == x by {
            lemma_insert_contains(a, at as int, x, d);
        }
    }
}

/// The elements after an insertion.
pub proof fn lemma_insert_contains(s: Seq<u32>, at: int, x: u32, d: u32)
    requires
        0 <= at <= s.len(),
    ensures
        s.insert(at, x).contains(d) <==> s.contains(d) || d == x,
{
    let t = s.insert(at, x);
    if t.contains(d) {
        let k = choose|k: int| 0 <= k < t.len() && t[k] == d;
        if k < at {
            assert(s[k] == d);
        } else if k > at {
            assert(s[k - 1] == d);
        }
    }
    if s.contains(d) {
        let k = choose|k: int| 0 <= k < s.len() && s[k] == d;
        if k < at {
            assert(t[k] == d);
        } else {
            assert(t[k + 1] == d);
        }
    }
    assert(t[at] == x);
}

/// The elements after an append.
pub proof fn lemma_push_contains(s: Seq<u32>, x: u32, d: u32)
    ensures
        s.push(x).contains(d) <==> s.contains(d) || d == x,
{
    if s.push(x).contains(d) {
        let k = choose|k: int| 0 <= k < s.push(x).len() && s.push(x)[k] == d;
        if k < s.len() {
            assert(s[k] == d);
        }
    }
    if s.contains(d) {
        let k = choose|k: int| 0 <= k < s.len() && s[k] == d;
        assert(s.push(x)[k] == d);
    }
    assert(s.push(x)[s.len() as int] == x);
}

/// Whether `x` is among `v`.
pub fn contains_index(v: &[u32], x: u32) -> (r: bool)
    ensures
        r == v@.contains(x),
{
    let mut i: usize = 0;
    while i < v.len()
        invariant
            i <= v@.len(),
            forall|j: int| 0 <= j < i ==> v@[j] != x,
        decreases v@.len() - i,
    {
        if v[i] == x {
            return true;
        }
        i += 1;
    }
    false
}

/// As many distinct elements as a set has, all in it, are all of it.
pub proof fn lemma_all_present(part: Seq<u32>, whole: Seq<u32>)
    requires
        part.no_duplicates(),
        whole.no_duplicates(),
        part.len() == whole.len(),
        forall|i: int| 0 <= i < part.len() ==> whole.contains(#[trigger] part[i]),
    ensures
        forall|d: u32| #[trigger] whole.contains(d) ==> part.contains(d),
{
    part.unique_seq_to_set();
    whole.unique_seq_to_set();
    let a = part.to_set();
    let b = whole.to_set();
    assert(a.subset_of(b)) by {
        assert forall|d: u32| a.contains(d) implies b.contains(d) by {
            let i = choose|i: int| 0 <= i < part.len() && part[i] == d;
            assert(whole.contains(part[i]));
        }
    }
    lemma_subset_equality(a, b);
    assert forall|d: u32| #[trigger] whole.contains(d) implies part.contains(d) by {
        assert(b.contains(d));
        assert(a.contains(d));
    }
}

/// Distinct elements of a set are no more than the set has.
pub proof fn lemma_at_most(part: Seq<u32>, whole: Seq<u32>)
    requires
        part.no_duplicates(),
        whole.no_duplicates(),
        forall|i: int| 0 <= i < part.len() ==> whole.contains(#[trigger] part[i]),
    ensures
        part.len() <= whole.len(),
{
    part.unique_seq_to_set();
    whole.unique_seq_to_set();
    let a = part.to_set();
    let b = whole.to_set();
    assert(a.subset_of(b)) by {
        assert forall|d: u32| a.contains(d) implies b.contains(d) by {
            let i = choose|i: int| 0 <= i < part.len() && part[i] == d;
            assert(whole.contains(part[i]));
        }
    }
    vstd::set_lib::lemma_len_subset(a, b);
}

/// The sum of `f` over some indices.
pub open spec fn sum_by(f: spec_fn(u32) -> int, s: Seq<u32>) -> int {
    sum(Seq::new(s.len(), |i: int| f(s[i])))
}

/// The sum over one more index.
pub proof fn lemma_sum_by_push(f: spec_fn(u32) -> int, s: Seq<u32>, x: u32)
    ensures
        sum_by(f, s.push(x)) == sum_by(f, s) + f(x),
{
    let a = Seq::new(s.push(x).len(), |i: int| f(s.push(x)[i]));
    assert(a.drop_last() =~= Seq::new(s.len(), |i: int| f(s[i])));
}

proof fn lemma_sum_by_remove(f: spec_fn(u32) -> int, s: Seq<u32>, i: int)
    requires
        0 <= i < s.len(),
    ensures
        sum_by(f, s) == sum_by(f, s.remove(i)) + f(s[i]),
    decreases s.len(),
{
    let x = s.last();
    let rest = s.drop_last();
    assert(s =~= rest.push(x));
    lemma_sum_by_push(f, rest, x);
    if i == s.len() - 1 {
        assert(s.remove(i) =~= rest);
    } else {
        lemma_sum_by_remove(f, rest, i);
        assert(s.remove(i) =~= rest.remove(i).push(x));
        lemma_sum_by_push(f, rest.remove(i), x);
    }
}

/// A sum does not depend on the order.
pub proof fn lemma_sum_permutation(f: spec_fn(u32) -> int, a: Seq<u32>, b: Seq<u32>)
    requires
        a.to_multiset() == b.to_multiset(),
    ensures
        sum_by(f, a) == sum_by(f, b),
    decreases a.len(),
{
    broadcast use group_to_multiset_ensures;

    assert(a.to_multiset().len() == a.len() && b.to_multiset().len() == b.len());
    if a.len() > 0 {
        let x = a.last();
        let rest = a.drop_last();
        assert(a =~= rest.push(x));
        assert(a.contains(x));
        assert(b.to_multiset().count(x) > 0);
        assert(b.contains(x));
        let i = choose|i: int| 0 <= i < b.len() && b[i] == x;
        assert(b.remove(i).to_multiset() =~= b.to_multiset().remove(x));
        assert(rest.push(x).to_multiset() =~= rest.to_multiset().insert(x));
        assert(rest.to_multiset() =~= b.remove(i).to_multiset());
        lemma_sum_permutation(f, rest, b.remove(i));
        lemma_sum_by_push(f, rest, x);
        lemma_sum_by_remove(f, b, i);
    } else {
        assert(a =~= b);
    }
}

/// As many distinct elements as a set has, all in it, are the set in some order.
pub proof fn lemma_same_multiset(a: Seq<u32>, b: Seq<u32>)
    requires
        a.no_duplicates(),
        b.no_duplicates(),
        a.len() == b.len(),
        forall|i: int| 0 <= i < a.len() ==> b.contains(#[trigger] a[i]),
    ensures
        a.to_multiset() == b.to_multiset(),
{
    broadcast use group_to_multiset_ensures;

    lemma_all_present(a, b);
    a.lemma_multiset_has_no_duplicates();
    b.lemma_multiset_has_no_duplicates();
    assert forall|x: u32| a.to_multiset().count(x) == b.to_multiset().count(x) by {
        if a.contains(x) {
            let i = choose|i: int| 0 <= i < a.len() && a[i] == x;
            assert(b.contains(a[i]));
            assert(a.to_multiset().contains(x) && b.to_multiset().contains(x));
        } else {
            assert(!b.contains(x));
        }
    }
    assert(a.to_multiset() =~= b.to_multiset());
}

/// Where an index stands among distinct ones.
pub(crate) fn index_position(indices: &[u32], x: u32) -> (r: Option<usize>)
    ensures
        r is Some <==> indices@.contains(x),
        r matches Some(k) ==> k < indices@.len() && indices@[k as int] == x,
        r matches Some(k) ==> (indices@.no_duplicates() ==> indices@.index_of(x) == k),
{
    let mut i: usize = 0;
    while i < indices.len()
        invariant
            i <= indices@.len(),
            forall|j: int| 0 <= j < i ==> indices@[j] != x,
        decreases indices@.len() - i,
    {
        if indices[i] == x {
            proof {
                let k = indices@.index_of(x);
                assert(indices@.contains(x));
                assert(0 <= k < indices@.len() && indices@[k] == x);
            }
            return Some(i);
        }
        i += 1;
    }
    None
}

/// The elements of a sequence in ascending order.
pub open spec fn ascending_of(s: Seq<u32>) -> Seq<u32> {
    choose|t: Seq<u32>| #[trigger] ascending(t) && t.to_multiset() == s.to_multiset()
}

/// There is one ascending order.
pub proof fn lemma_ascending_of(t: Seq<u32>, s: Seq<u32>)
    requires
        ascending(t),
        t.to_multiset() == s.to_multiset(),
    ensures
        ascending_of(s) == t,
{
    let u = ascending_of(s);
    assert(ascending(u) && u.to_multiset() == s.to_multiset());
    lemma_ascending_unique(t, u);
}

proof fn lemma_ascending_unique(a: Seq<u32>, b: Seq<u32>)
    requires
        ascending(a),
        ascending(b),
        a.to_multiset() == b.to_multiset(),
    ensures
        a == b,
    decreases a.len(),
{
    broadcast use group_to_multiset_ensures;

    lemma_same_elements(a, b);
    if a.len() > 0 {
        let (x, y) = (a.last(), b.last());
        assert(a.contains(x) && b.contains(y));
        assert(b.contains(x) && a.contains(y));
        let k = choose|k: int| 0 <= k < b.len() && b[k] == x;
        let j = choose|j: int| 0 <= j < a.len() && a[j] == y;
        assert(x == y) by {
            if k < b.len() - 1 {
                assert(b[k] < b[b.len() - 1]);
            }
            if j < a.len() - 1 {
                assert(a[j] < a[a.len() - 1]);
            }
        }
        let (a1, b1) = (a.drop_last(), b.drop_last());
        assert(a =~= a1.push(x));
        assert(b =~= b1.push(y));
        assert(a1.to_multiset() =~= a.to_multiset().remove(x));
        assert(b1.to_multiset() =~= b.to_multiset().remove(y));
        lemma_ascending_unique(a1, b1);
    } else {
        assert(a =~= b);
    }
}

/// Keys that increase are ascending.
pub proof fn lemma_increasing(t: Seq<u32>)
    requires
        vstd::std_specs::btree::increasing_seq(t),
    ensures
        ascending(t),
{
    assert(vstd::laws_cmp::obeys_cmp::<u32>());
    assert forall|i: int, j: int| 0 <= i < j < t.len() implies t[i] < t[j] by {
        assert(vstd::std_specs::cmp::OrdSpec::cmp_spec(&t[i], &t[j]) is Less);
    }
}

/// The elements of a set in ascending order.
pub open spec fn ascending_set(d: Set<u32>) -> Seq<u32> {
    choose|t: Seq<u32>| #[trigger] ascending(t) && t.to_set() == d
}

/// Ascending elements are distinct.
proof fn lemma_ascending_distinct(t: Seq<u32>)
    requires
        ascending(t),
    ensures
        t.no_duplicates(),
{
    assert forall|i: int, j: int| 0 <= i < t.len() && 0 <= j < t.len() && i != j implies t[i]
        != t[j] by {
        if i < j {
            assert(t[i] < t[j]);
        } else {
            assert(t[j] < t[i]);
        }
    }
}

/// A set has one ascending order.
pub proof fn lemma_ascending_set_unique(t: Seq<u32>, d: Set<u32>)
    requires
        ascending(t),
        t.to_set() == d,
    ensures
        ascending_set(d) == t,
{
    let u = ascending_set(d);
    assert(ascending(u) && u.to_set() == d);
    lemma_ascending_distinct(t);
    lemma_ascending_distinct(u);
    t.unique_seq_to_set();
    u.unique_seq_to_set();
    assert forall|i: int| 0 <= i < t.len() implies u.contains(#[trigger] t[i]) by {
        assert(t.to_set().contains(t[i]));
        assert(u.to_set().contains(t[i]));
    }
    lemma_same_multiset(t, u);
    lemma_ascending_unique(t, u);
}

/// A finite set has an ascending order.
pub proof fn lemma_ascending_set(d: Set<u32>)
    requires
        d.finite(),
    ensures
        ascending(ascending_set(d)),
        ascending_set(d).to_set() == d,
        ascending_set(d).len() == d.len(),
        ascending_set(d).no_duplicates(),
        forall|k: u32| ascending_set(d).contains(k) <==> d.contains(k),
    decreases d.len(),
{
    assert(exists|t: Seq<u32>| #[trigger] ascending(t) && t.to_set() == d) by {
        if d.len() == 0 {
            let t = Seq::<u32>::empty();
            assert(ascending(t));
            assert(t.to_set() =~= d) by {
                assert(d =~= Set::empty());
            }
        } else {
            let a = d.choose();
            let rest = d.remove(a);
            lemma_ascending_set(rest);
            let u = ascending_set(rest);
            lemma_ascending_insert(u, a);
            let t = choose|t: Seq<u32>| #[trigger] ascending(t) && t.to_set() == u.to_set().insert(a);
            assert(u.to_set().insert(a) =~= d);
            assert(ascending(t) && t.to_set() == d);
        }
    }
    let t = ascending_set(d);
    lemma_ascending_distinct(t);
    t.unique_seq_to_set();
    assert forall|k: u32| t.contains(k) <==> d.contains(k) by {
        assert(t.to_set().contains(k) <==> t.contains(k));
    }
}

/// One more element has its place in an ascending order.
proof fn lemma_ascending_insert(u: Seq<u32>, a: u32)
    requires
        ascending(u),
        !u.contains(a),
    ensures
        exists|t: Seq<u32>| #[trigger] ascending(t) && t.to_set() == u.to_set().insert(a),
    decreases u.len(),
{
    if u.len() == 0 || u.last() < a {
        let t = u.push(a);
        assert forall|i: int, j: int| 0 <= i < j < t.len() implies t[i] < t[j] by {
            if j < u.len() {
                assert(u[i] < u[j]);
            } else if i < u.len() - 1 {
                assert(u[i] < u[u.len() - 1]);
            }
        }
        assert(ascending(t));
        lemma_push_to_set(u, a);
    } else {
        let (rest, last) = (u.drop_last(), u.last());
        assert(u[u.len() - 1] == last);
        assert(u.contains(last));
        assert forall|i: int, j: int| 0 <= i < j < rest.len() implies rest[i] < rest[j] by {
            assert(u[i] < u[j]);
        }
        assert(!rest.contains(a)) by {
            if rest.contains(a) {
                let k = choose|k: int| 0 <= k < rest.len() && rest[k] == a;
                assert(u[k] == a);
            }
        }
        lemma_ascending_insert(rest, a);
        let v = choose|v: Seq<u32>| #[trigger] ascending(v) && v.to_set() == rest.to_set().insert(a);
        let t = v.push(last);
        assert forall|i: int, j: int| 0 <= i < j < t.len() implies t[i] < t[j] by {
            if j < v.len() {
                assert(v[i] < v[j]);
            } else {
                assert(v.to_set().contains(v[i]));
                if v[i] != a {
                    assert(rest.to_set().contains(v[i]));
                    let k = choose|k: int| 0 <= k < rest.len() && rest[k] == v[i];
                    assert(u[k] < u[u.len() - 1]);
                }
            }
        }
        assert(ascending(t));
        lemma_push_to_set(v, last);
        lemma_push_to_set(rest, last);
        assert(u =~= rest.push(last));
        assert(t.to_set() =~= u.to_set().insert(a));
    }
}

proof fn lemma_push_to_set(u: Seq<u32>, a: u32)
    ensures
        u.push(a).to_set() == u.to_set().insert(a),
{
    assert forall|x: u32| u.push(a).to_set().contains(x) <==> u.to_set().insert(a).contains(x) by {
        lemma_push_contains(u, a, x);
    }
    assert(u.push(a).to_set() =~= u.to_set().insert(a));
}

/// A set of share indices is nonempty, without zero and without repetition: exactly such a
/// list is accepted, and put in ascending order with nothing added or lost.
pub proof fn law_index_set(indices: &[u32], r: Result<Vec<u32>, OsstError>)
    requires
        call_ensures(index_set, (indices,), r),
    ensures
        r is Ok <==> {
            &&& indices@.len() > 0
            &&& forall|i: int| 0 <= i < indices@.len() ==> #[trigger] indices@[i] != 0
            &&& forall|i: int, j: int|
                0 <= i < j < indices@.len() ==> indices@[i] != indices@[j]
        },
        r matches Ok(v) ==> v@.len() == indices@.len() && (forall|d: u32|
            v@.contains(d) <==> #[trigger] indices@.contains(d)) && forall|i: int, j: int|
            0 <= i < j < v@.len() ==> v@[i] < v@[j],
        r matches Err(OsstError::DuplicateIndex(d)) ==> indices@.contains(d),
{
    broadcast use group_to_multiset_ensures;

    if r is Ok {
        lemma_same_elements(r->Ok_0@, indices@);
        assert forall|i: int| 0 <= i < indices@.len() implies #[trigger] indices@[i] != 0 by {
            assert(indices@.contains(indices@[i]));
        }
    }
    if (forall|i: int| 0 <= i < indices@.len() ==> #[trigger] indices@[i] != 0) && (forall|
        i: int,
        j: int,
    |
        0 <= i < j < indices@.len() ==> indices@[i] != indices@[j]) {
        assert(!indices@.contains(0));
        assert forall|i: int, j: int|
            0 <= i < indices@.len() && 0 <= j < indices@.len() && i != j implies indices@[i]
            != indices@[j] by {
            if i < j {
                assert(indices@[i] != indices@[j]);
            } else {
                assert(indices@[j] != indices@[i]);
            }
        }
    }
    match r {
        Err(OsstError::DuplicateIndex(d)) => {
            assert(repeats(indices@, d));
            assert(indices@.to_multiset().count(d) > 0);
        },
        _ => {},
    }
}

} // verus!

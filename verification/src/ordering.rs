//! Strictly ascending sequences, and the one such sequence that lists a given set.

use vstd::prelude::*;
use itertools::Itertools;

verus! {

/// Whether `lt` is a strict total order.
pub open spec fn strict_order<T>(lt: spec_fn(T, T) -> bool) -> bool {
    &&& forall|a: T| !#[trigger] lt(a, a)
    &&& forall|a: T, b: T, c: T| #[trigger] lt(a, b) && #[trigger] lt(b, c) ==> lt(a, c)
    &&& forall|a: T, b: T| a != b ==> #[trigger] lt(a, b) || lt(b, a)
}

/// Whether every item of `s` is below all the items after it.
pub open spec fn ascending<T>(s: Seq<T>, lt: spec_fn(T, T) -> bool) -> bool {
    forall|i: int, j: int| 0 <= i < j < s.len() ==> lt(#[trigger] s[i], #[trigger] s[j])
}

/// Whether `s` lists exactly the members of `set`, each once, in ascending order.
pub open spec fn enumerates<T>(s: Seq<T>, set: Set<T>, lt: spec_fn(T, T) -> bool) -> bool {
    &&& ascending(s, lt)
    &&& forall|x: T| s.contains(x) <==> set.contains(x)
}

/// The members of a finite set in ascending order.
pub open spec fn in_order<T>(set: Set<T>, lt: spec_fn(T, T) -> bool) -> Seq<T> {
    choose|s: Seq<T>| enumerates(s, set, lt)
}

/// The order of integers.
pub open spec fn int_lt() -> spec_fn(int, int) -> bool {
    |a: int, b: int| a < b
}

/// The order of pairs of integers: by the first, then by the second.
pub open spec fn pair_lt() -> spec_fn((int, int), (int, int)) -> bool {
    |a: (int, int), b: (int, int)| a.0 < b.0 || (a.0 == b.0 && a.1 < b.1)
}

/// A set has at most one ascending listing.
pub proof fn lemma_enumeration_unique<T>(
    a: Seq<T>,
    b: Seq<T>,
    set: Set<T>,
    lt: spec_fn(T, T) -> bool,
)
    requires
        strict_order(lt),
        enumerates(a, set, lt),
        enumerates(b, set, lt),
    ensures
        a == b,
    decreases a.len(),
{
    if a.len() == 0 {
        if b.len() > 0 {
            assert(b.contains(b[0]));
            assert(a.contains(b[0]));
        }
        assert(a =~= b);
    } else {
        let top = a.last();
        assert(a.contains(top));
        assert(b.contains(top));
        let j = choose|j: int| 0 <= j < b.len() && b[j] == top;
        let other = b.last();
        assert(b.contains(other));
        let i = choose|i: int| 0 <= i < a.len() && a[i] == other;
        if i < a.len() - 1 {
            assert(lt(a[i], a[a.len() - 1]));
        }
        if j < b.len() - 1 {
            assert(lt(b[j], b[b.len() - 1]));
        }
        assert(top == other);
        let rest = set.remove(top);
        assert forall|x: T| a.drop_last().contains(x) <==> rest.contains(x) by {
            if a.drop_last().contains(x) {
                let k = choose|k: int| 0 <= k < a.drop_last().len() && a.drop_last()[k] == x;
                assert(lt(a[k], a[a.len() - 1]));
                assert(a.contains(x));
            }
            if rest.contains(x) {
                assert(a.contains(x));
                let k = choose|k: int| 0 <= k < a.len() && a[k] == x;
                assert(a.drop_last()[k] == x);
            }
        }
        assert forall|x: T| b.drop_last().contains(x) <==> rest.contains(x) by {
            if b.drop_last().contains(x) {
                let k = choose|k: int| 0 <= k < b.drop_last().len() && b.drop_last()[k] == x;
                assert(lt(b[k], b[b.len() - 1]));
                assert(b.contains(x));
            }
            if rest.contains(x) {
                assert(b.contains(x));
                let k = choose|k: int| 0 <= k < b.len() && b[k] == x;
                assert(b.drop_last()[k] == x);
            }
        }
        lemma_enumeration_unique(a.drop_last(), b.drop_last(), rest, lt);
        assert(a =~= a.drop_last().push(top));
        assert(b =~= b.drop_last().push(top));
    }
}

/// An ascending listing of a set is its listing in order.
pub proof fn lemma_in_order<T>(s: Seq<T>, set: Set<T>, lt: spec_fn(T, T) -> bool)
    requires
        strict_order(lt),
        enumerates(s, set, lt),
    ensures
        in_order(set, lt) == s,
{
    lemma_enumeration_unique(in_order(set, lt), s, set, lt);
}

/// How many items of an ascending sequence are below `k`.
pub open spec fn rank<T>(s: Seq<T>, k: T, lt: spec_fn(T, T) -> bool) -> int
    decreases s.len(),
{
    if s.len() == 0 {
        0
    } else if lt(s.last(), k) {
        s.len() as int
    } else {
        rank(s.drop_last(), k, lt)
    }
}

/// The items below the rank of `k` are below `k`, and no other item is.
proof fn lemma_rank<T>(s: Seq<T>, k: T, lt: spec_fn(T, T) -> bool)
    requires
        strict_order(lt),
        ascending(s, lt),
    ensures
        0 <= rank(s, k, lt) <= s.len(),
        forall|j: int| 0 <= j < rank(s, k, lt) ==> lt(#[trigger] s[j], k),
        forall|j: int| rank(s, k, lt) <= j < s.len() ==> !lt(#[trigger] s[j], k),
    decreases s.len(),
{
    if s.len() > 0 {
        if lt(s.last(), k) {
            assert forall|j: int| 0 <= j < s.len() implies lt(#[trigger] s[j], k) by {
                if j < s.len() - 1 {
                    assert(lt(s[j], s[s.len() - 1]));
                }
            }
        } else {
            lemma_rank(s.drop_last(), k, lt);
            assert forall|j: int| 0 <= j < rank(s, k, lt) implies lt(#[trigger] s[j], k) by {
                assert(s.drop_last()[j] == s[j]);
            }
            assert forall|j: int| rank(s, k, lt) <= j < s.len() implies !lt(#[trigger] s[j], k) by {
                if j < s.len() - 1 {
                    assert(s.drop_last()[j] == s[j]);
                }
            }
        }
    }
}

/// The set of the items of a sequence can be listed in ascending order.
pub proof fn lemma_listing_exists<T>(items: Seq<T>, lt: spec_fn(T, T) -> bool)
    requires
        strict_order(lt),
    ensures
        enumerates(in_order(Set::new(|x: T| items.contains(x)), lt), Set::new(|x: T| items.contains(x)), lt),
    decreases items.len(),
{
    let set = Set::new(|x: T| items.contains(x));
    if items.len() == 0 {
        assert(enumerates(Seq::<T>::empty(), set, lt));
    } else {
        let rest = items.drop_last();
        let k = items.last();
        let rest_set = Set::new(|x: T| rest.contains(x));
        lemma_listing_exists(rest, lt);
        let s = in_order(rest_set, lt);
        assert forall|x: T| set.contains(x) <==> rest_set.contains(x) || x == k by {
            if items.contains(x) {
                let i = choose|i: int| 0 <= i < items.len() && items[i] == x;
                if i < rest.len() {
                    assert(rest[i] == x);
                }
            }
            if rest.contains(x) {
                let i = choose|i: int| 0 <= i < rest.len() && rest[i] == x;
                assert(items[i] == x);
            }
            if x == k {
                assert(items[items.len() - 1] == x);
            }
        }
        if s.contains(k) {
            assert(enumerates(s, set, lt));
        } else {
            lemma_rank(s, k, lt);
            let r = rank(s, k, lt);
            let grown = s.subrange(0, r).push(k) + s.subrange(r, s.len() as int);
            assert forall|i: int, j: int| 0 <= i < j < grown.len() implies lt(
                #[trigger] grown[i],
                #[trigger] grown[j],
            ) by {
                if j < r {
                    assert(lt(s[i], s[j]));
                } else if j == r {
                    assert(lt(s[i], k));
                } else if i < r {
                    assert(lt(s[i], s[j - 1]));
                } else if i == r {
                    assert(s.contains(s[j - 1]));
                    assert(!lt(s[j - 1], k));
                } else {
                    assert(lt(s[i - 1], s[j - 1]));
                }
            }
            assert forall|x: T| grown.contains(x) <==> set.contains(x) by {
                if grown.contains(x) {
                    let i = choose|i: int| 0 <= i < grown.len() && grown[i] == x;
                    if i < r {
                        assert(s.contains(s[i]));
                    } else if i > r {
                        assert(s.contains(s[i - 1]));
                    }
                }
                if set.contains(x) {
                    if x == k {
                        assert(grown[r] == x);
                    } else {
                        assert(s.contains(x));
                        let i = choose|i: int| 0 <= i < s.len() && s[i] == x;
                        if i < r {
                            assert(grown[i] == x);
                        } else {
                            assert(grown[i + 1] == x);
                        }
                    }
                }
            }
            assert(enumerates(grown, set, lt));
        }
    }
}

/// The order of `usize` numbers.
pub open spec fn usize_lt() -> spec_fn(usize, usize) -> bool {
    |a: usize, b: usize| a < b
}

/// The orders of integers and of pairs of integers are strict total orders.
pub proof fn lemma_integer_orders()
    ensures
        strict_order(int_lt()),
        strict_order(usize_lt()),
        strict_order(pair_lt()),
{
}

/// Whether a pair is at or below another: by the first number, then by the second.
pub open spec fn pair_le(a: (u128, u128), b: (u128, u128)) -> bool {
    a.0 < b.0 || (a.0 == b.0 && a.1 <= b.1)
}

/// Sorts pairs of integers with `Itertools::sorted`. The result holds the same
/// pairs as often as the argument does, and no pair in it is above a later one.
/// Tuples compare by their first number, then by their second.
#[verifier::external_body]
pub(crate) fn sorted(pairs: Vec<(u128, u128)>) -> (r: Vec<(u128, u128)>)
    ensures
        r@.to_multiset() == pairs@.to_multiset(),
        forall|i: int, j: int| 0 <= i < j < r@.len() ==> pair_le(#[trigger] r@[i], #[trigger] r@[j]),
{
    pairs.into_iter().sorted().collect()
}

/// A pair of machine integers as a pair of integers.
pub open spec fn as_ints(p: (u128, u128)) -> (int, int) {
    (p.0 as int, p.1 as int)
}

/// A sequence of pairs of machine integers as a sequence of pairs of integers.
pub open spec fn ints_of(s: Seq<(u128, u128)>) -> Seq<(int, int)> {
    Seq::new(s.len(), |i: int| as_ints(s[i]))
}

/// The set of the pairs that occur in a sequence.
pub open spec fn pair_set(s: Seq<(u128, u128)>) -> Set<(int, int)> {
    Set::new(|k: (int, int)| exists|i: int| 0 <= i < s.len() && as_ints(#[trigger] s[i]) == k)
}

/// The distinct pairs of a list, in ascending order.
pub fn sorted_distinct(pairs: Vec<(u128, u128)>) -> (r: Vec<(u128, u128)>)
    ensures
        enumerates(ints_of(r@), pair_set(pairs@), pair_lt()),
{
    let ghost given = pairs@;
    let all = sorted(pairs);
    proof {
        assert forall|x: (u128, u128)| all@.contains(x) <==> given.contains(x) by {
            vstd::seq_lib::to_multiset_contains(all@, x);
            vstd::seq_lib::to_multiset_contains(given, x);
        }
    }
    let mut out: Vec<(u128, u128)> = Vec::new();
    let mut i: usize = 0;
    while i < all.len()
        invariant
            i <= all@.len(),
            forall|a: int, b: int| 0 <= a < b < all@.len() ==> pair_le(#[trigger] all@[a], #[trigger] all@[b]),
            ascending(ints_of(out@), pair_lt()),
            forall|x: (u128, u128)|
                out@.contains(x) <==> exists|m: int| 0 <= m < i && #[trigger] all@[m] == x,
            i > 0 ==> out@.len() > 0 && out@.last() == all@[i - 1],
        decreases all@.len() - i,
    {
        let next = all[i];
        let fresh = if out.len() == 0 {
            true
        } else {
            let top = out[out.len() - 1];
            top.0 != next.0 || top.1 != next.1
        };
        if fresh {
            proof {
                let grown = out@.push(next);
                assert forall|a: int, b: int| 0 <= a < b < grown.len() implies (pair_lt())(
                    #[trigger] ints_of(grown)[a],
                    #[trigger] ints_of(grown)[b],
                ) by {
                    if b < out@.len() {
                        assert((pair_lt())(ints_of(out@)[a], ints_of(out@)[b]));
                    } else {
                        assert(out@.contains(out@[a]));
                        let m = choose|m: int| 0 <= m < i && all@[m] == out@[a];
                        assert(pair_le(all@[m], all@[i as int]));
                        if i > 0 {
                            assert(pair_le(all@[i - 1], all@[i as int]));
                            let last = out@.len() - 1;
                            if a < last {
                                assert((pair_lt())(ints_of(out@)[a], ints_of(out@)[last]));
                            }
                        }
                    }
                }
                assert forall|x: (u128, u128)| grown.contains(x) <==> exists|m: int|
                    0 <= m < i + 1 && #[trigger] all@[m] == x by {
                    if grown.contains(x) {
                        let k = choose|k: int| 0 <= k < grown.len() && grown[k] == x;
                        if k < out@.len() {
                            assert(out@.contains(x));
                        } else {
                            assert(all@[i as int] == x);
                        }
                    }
                    if exists|m: int| 0 <= m < i + 1 && #[trigger] all@[m] == x {
                        let m = choose|m: int| 0 <= m < i + 1 && #[trigger] all@[m] == x;
                        if m < i {
                            assert(out@.contains(x));
                            let k = choose|k: int| 0 <= k < out@.len() && out@[k] == x;
                            assert(grown[k] == x);
                        } else {
                            assert(grown[out@.len() as int] == x);
                        }
                    }
                }
            }
            out.push(next);
        } else {
            proof {
                assert forall|x: (u128, u128)| out@.contains(x) <==> exists|m: int|
                    0 <= m < i + 1 && #[trigger] all@[m] == x by {
                    if exists|m: int| 0 <= m < i + 1 && #[trigger] all@[m] == x {
                        let m = choose|m: int| 0 <= m < i + 1 && #[trigger] all@[m] == x;
                        if m == i {
                            assert(out@[out@.len() - 1] == x);
                        }
                    }
                }
            }
        }
        i += 1;
    }
    proof {
        assert forall|k: (int, int)| ints_of(out@).contains(k) <==> pair_set(given).contains(k) by {
            if ints_of(out@).contains(k) {
                let a = choose|a: int| 0 <= a < ints_of(out@).len() && ints_of(out@)[a] == k;
                assert(out@.contains(out@[a]));
                assert(given.contains(out@[a]));
                let g = choose|g: int| 0 <= g < given.len() && given[g] == out@[a];
                assert(as_ints(given[g]) == k);
            }
            if pair_set(given).contains(k) {
                let g = choose|g: int| 0 <= g < given.len() && as_ints(#[trigger] given[g]) == k;
                assert(given.contains(given[g]));
                assert(all@.contains(given[g]));
                let m = choose|m: int| 0 <= m < all@.len() && all@[m] == given[g];
                assert(out@.contains(given[g]));
                let a = choose|a: int| 0 <= a < out@.len() && out@[a] == given[g];
                assert(ints_of(out@)[a] == k);
            }
        }
    }
    out
}

} // verus!

//! What merging and sorting mean on sequences of values, and the laws that
//! relate them. The list operations are stated over these.
//!
//! Values are compared with `<` alone. The laws hold for a type whose `<` is
//! a total order: see [`is_total_order`].

use vstd::multiset::Multiset;
use vstd::prelude::*;
use vstd::relations::{sorted_by, total_ordering};
use vstd::seq_lib::{lemma_multiset_commutative, lemma_sorted_unique};
use vstd::std_specs::cmp::PartialOrdIs;
use vstd::std_specs::cmp::PartialOrdSpec;

verus! {

/// `a < b`, as the type of the values defines it.
pub open spec fn less<T: PartialOrd>(a: T, b: T) -> bool {
    a.is_lt(&b)
}

/// What `<` computes on `T` is what [`less`] says.
pub open spec fn order_is_specified<T: PartialOrd>() -> bool {
    T::obeys_partial_cmp_spec()
}

/// `<` on `T` is a total order: no value is less than itself, less than
/// carries over from one pair to the next, and of two different values one
/// is less than the other.
pub open spec fn is_total_order<T: PartialOrd>() -> bool {
    &&& order_is_specified::<T>()
    &&& forall|x: T| !#[trigger] less(x, x)
    &&& forall|x: T, y: T, z: T| #[trigger] less(x, y) && #[trigger] less(y, z) ==> less(x, z)
    &&& forall|x: T, y: T| #![trigger less(x, y)] x != y ==> less(x, y) || less(y, x)
}

/// The order by which values are sorted: `x` may stand before `y` unless
/// `y < x`.
pub open spec fn value_order<T: PartialOrd>() -> spec_fn(T, T) -> bool {
    |x: T, y: T| !less(y, x)
}

/// The stable two-way merge of `a` and `b`: at every step the smaller of the
/// two first values leaves, and `a`'s leaves where neither is smaller.
pub open spec fn merged<T: PartialOrd>(a: Seq<T>, b: Seq<T>) -> Seq<T>
    decreases a.len() + b.len(),
{
    if a.len() == 0 {
        b
    } else if b.len() == 0 {
        a
    } else if less(b[0], a[0]) {
        seq![b[0]] + merged(a, b.drop_first())
    } else {
        seq![a[0]] + merged(a.drop_first(), b)
    }
}

/// Where a sequence of `n` values is cut in two: the first half takes the odd
/// value.
pub open spec fn first_half(n: int) -> int {
    n / 2 + n % 2
}

/// What merge sort makes of `s`: a sequence of two values or more is cut in
/// two halves, and the result is the merge of what merge sort makes of each.
///
/// This is defined for every `<`. It keeps values of which neither is less
/// than the other in the order in which `s` has them.
pub open spec fn merge_sorted<T: PartialOrd>(s: Seq<T>) -> Seq<T>
    decreases s.len(),
{
    if s.len() <= 1 {
        s
    } else {
        let cut = first_half(s.len() as int);
        merged(merge_sorted(s.subrange(0, cut)), merge_sorted(s.subrange(cut, s.len() as int)))
    }
}

/// No value of `s` is followed by a smaller one.
pub open spec fn is_ascending<T: PartialOrd>(s: Seq<T>) -> bool {
    forall|i: int, j: int| 0 <= i < j < s.len() ==> !less(s[j], s[i])
}

/// The values of `s` in ascending order.
pub open spec fn ascending<T: PartialOrd>(s: Seq<T>) -> Seq<T> {
    s.sort_by(value_order::<T>())
}

/// If neither `y < x` nor `z < y`, then not `z < x`.
pub proof fn lemma_not_less_carries_over<T: PartialOrd>(x: T, y: T, z: T)
    requires
        is_total_order::<T>(),
        !less(y, x),
        !less(z, y),
    ensures
        !less(z, x),
{
    if less(z, x) {
        if x != y {
            assert(less(x, y) || less(y, x));
            assert(less(z, y));
        }
    }
}

/// Under a total order, "not greater than" orders all values in a row.
pub proof fn lemma_value_order_total<T: PartialOrd>()
    requires
        is_total_order::<T>(),
    ensures
        total_ordering(value_order::<T>()),
{
    let r = value_order::<T>();
    assert forall|x: T| #[trigger] r(x, x) by {
        assert(!less(x, x));
    }
    assert forall|x: T, y: T| #[trigger] r(x, y) && #[trigger] r(y, x) implies x == y by {
        if x != y {
            assert(less(x, y) || less(y, x));
        }
    }
    assert forall|x: T, y: T, z: T| #[trigger] r(x, y) && #[trigger] r(y, z) implies r(x, z) by {
        lemma_not_less_carries_over(x, y, z);
    }
    assert forall|x: T, y: T| #[trigger] r(x, y) || #[trigger] r(y, x) by {
        if less(y, x) && less(x, y) {
            assert(less(x, x));
        }
    }
    assert(vstd::relations::reflexive(r));
    assert(vstd::relations::antisymmetric(r));
    assert(vstd::relations::transitive(r));
    assert(vstd::relations::strongly_connected(r));
}

/// A merge holds what its two inputs hold, each value as often as they do.
pub proof fn lemma_merged_multiset<T: PartialOrd>(a: Seq<T>, b: Seq<T>)
    ensures
        merged(a, b).to_multiset() == a.to_multiset().add(b.to_multiset()),
        merged(a, b).len() == a.len() + b.len(),
    decreases a.len() + b.len(),
{
    broadcast use vstd::multiset::group_multiset_axioms;
    broadcast use vstd::seq_lib::group_to_multiset_ensures;

    if a.len() == 0 {
        assert(a.to_multiset() =~= Multiset::empty());
        assert(b.to_multiset() =~= a.to_multiset().add(b.to_multiset()));
    } else if b.len() == 0 {
        assert(b.to_multiset() =~= Multiset::empty());
        assert(a.to_multiset() =~= a.to_multiset().add(b.to_multiset()));
    } else if less(b[0], a[0]) {
        lemma_merged_multiset(a, b.drop_first());
        lemma_multiset_commutative(seq![b[0]], merged(a, b.drop_first()));
        lemma_multiset_commutative(seq![b[0]], b.drop_first());
        assert(seq![b[0]] + b.drop_first() =~= b);
        assert(merged(a, b).to_multiset() =~= a.to_multiset().add(b.to_multiset()));
    } else {
        lemma_merged_multiset(a.drop_first(), b);
        lemma_multiset_commutative(seq![a[0]], merged(a.drop_first(), b));
        lemma_multiset_commutative(seq![a[0]], a.drop_first());
        assert(seq![a[0]] + a.drop_first() =~= a);
        assert(merged(a, b).to_multiset() =~= a.to_multiset().add(b.to_multiset()));
    }
}

/// Every value of a merge comes from one of its inputs.
proof fn lemma_merged_member<T: PartialOrd>(a: Seq<T>, b: Seq<T>, i: int)
    requires
        0 <= i < merged(a, b).len(),
    ensures
        a.contains(merged(a, b)[i]) || b.contains(merged(a, b)[i]),
    decreases a.len() + b.len(),
{
    if a.len() == 0 {
    } else if b.len() == 0 {
    } else if less(b[0], a[0]) {
        if i > 0 {
            lemma_merged_member(a, b.drop_first(), i - 1);
            let v = merged(a, b)[i];
            if b.drop_first().contains(v) {
                let k = choose|k: int| 0 <= k < b.drop_first().len() && b.drop_first()[k] == v;
                assert(b[k + 1] == v);
            }
        } else {
            assert(b[0] == merged(a, b)[0]);
        }
    } else {
        if i > 0 {
            lemma_merged_member(a.drop_first(), b, i - 1);
            let v = merged(a, b)[i];
            if a.drop_first().contains(v) {
                let k = choose|k: int| 0 <= k < a.drop_first().len() && a.drop_first()[k] == v;
                assert(a[k + 1] == v);
            }
        } else {
            assert(a[0] == merged(a, b)[0]);
        }
    }
}

/// The merge of two ascending sequences is ascending.
pub proof fn lemma_merged_ascending<T: PartialOrd>(a: Seq<T>, b: Seq<T>)
    requires
        is_total_order::<T>(),
        is_ascending(a),
        is_ascending(b),
    ensures
        is_ascending(merged(a, b)),
    decreases a.len() + b.len(),
{
    if a.len() == 0 || b.len() == 0 {
    } else {
        let m = merged(a, b);
        let rest = if less(b[0], a[0]) {
            merged(a, b.drop_first())
        } else {
            merged(a.drop_first(), b)
        };
        if less(b[0], a[0]) {
            lemma_merged_ascending(a, b.drop_first());
        } else {
            lemma_merged_ascending(a.drop_first(), b);
        }
        assert forall|i: int, j: int| 0 <= i < j < m.len() implies !less(m[j], m[i]) by {
            if i == 0 {
                if less(b[0], a[0]) {
                    lemma_merged_member(a, b.drop_first(), j - 1);
                    let v = rest[j - 1];
                    if a.contains(v) {
                        let k = choose|k: int| 0 <= k < a.len() && a[k] == v;
                        assert(!less(a[k], a[0]));
                        if less(v, b[0]) {
                            assert(less(v, a[0]));
                        }
                    } else {
                        let k = choose|k: int|
                            0 <= k < b.drop_first().len() && b.drop_first()[k] == v;
                        assert(!less(b[k + 1], b[0]));
                    }
                } else {
                    lemma_merged_member(a.drop_first(), b, j - 1);
                    let v = rest[j - 1];
                    if b.contains(v) {
                        let k = choose|k: int| 0 <= k < b.len() && b[k] == v;
                        if k > 0 {
                            assert(!less(b[k], b[0]));
                            lemma_not_less_carries_over(a[0], b[0], v);
                        }
                    } else {
                        let k = choose|k: int|
                            0 <= k < a.drop_first().len() && a.drop_first()[k] == v;
                        assert(!less(a[k + 1], a[0]));
                    }
                }
            } else {
                assert(m[i] == rest[i - 1] && m[j] == rest[j - 1]);
            }
        }
    }
}

/// An ascending sequence is fixed by the values it holds: two of them with
/// the same values, each as often, are the same sequence.
pub proof fn lemma_ascending_unique<T: PartialOrd>(x: Seq<T>, y: Seq<T>)
    requires
        is_total_order::<T>(),
        is_ascending(x),
        is_ascending(y),
        x.to_multiset() == y.to_multiset(),
    ensures
        x == y,
{
    lemma_value_order_total::<T>();
    assert(sorted_by(x, value_order::<T>()));
    assert(sorted_by(y, value_order::<T>()));
    lemma_sorted_unique(x, y, value_order::<T>());
}

/// Sorting gives an ascending sequence of the same values, each as often.
pub proof fn lemma_ascending_sorts<T: PartialOrd>(s: Seq<T>)
    requires
        is_total_order::<T>(),
    ensures
        is_ascending(ascending(s)),
        ascending(s).to_multiset() == s.to_multiset(),
        ascending(s).len() == s.len(),
{
    broadcast use vstd::seq_lib::group_to_multiset_ensures;

    lemma_value_order_total::<T>();
    s.lemma_sort_by_ensures(value_order::<T>());
    let r = ascending(s);
    assert forall|i: int, j: int| 0 <= i < j < r.len() implies !less(r[j], r[i]) by {
        assert(value_order::<T>()(r[i], r[j]));
    }
    vstd::seq_lib::to_multiset_len(s);
    vstd::seq_lib::to_multiset_len(r);
}

/// Sorting a sequence is sorting its two halves and merging them, wherever
/// the sequence is cut.
pub proof fn lemma_sort_by_halves<T: PartialOrd>(left: Seq<T>, right: Seq<T>)
    requires
        is_total_order::<T>(),
    ensures
        ascending(left + right) == merged(ascending(left), ascending(right)),
{
    lemma_ascending_sorts(left);
    lemma_ascending_sorts(right);
    lemma_ascending_sorts(left + right);
    lemma_merged_ascending(ascending(left), ascending(right));
    lemma_merged_multiset(ascending(left), ascending(right));
    lemma_multiset_commutative(left, right);
    lemma_ascending_unique(ascending(left + right), merged(ascending(left), ascending(right)));
}

/// Under a total order, merge sort gives the values in ascending order.
pub proof fn lemma_merge_sorted_ascending<T: PartialOrd>(s: Seq<T>)
    requires
        is_total_order::<T>(),
    ensures
        merge_sorted(s) == ascending(s),
    decreases s.len(),
{
    if s.len() <= 1 {
        lemma_ascending_sorts(s);
        assert(is_ascending(s));
        lemma_ascending_unique(s, ascending(s));
    } else {
        let cut = first_half(s.len() as int);
        let left = s.subrange(0, cut);
        let right = s.subrange(cut, s.len() as int);
        lemma_merge_sorted_ascending(left);
        lemma_merge_sorted_ascending(right);
        lemma_sort_by_halves(left, right);
        assert(left + right =~= s);
    }
}

/// Sorting twice is sorting once.
pub proof fn lemma_sort_idempotent<T: PartialOrd>(s: Seq<T>)
    requires
        is_total_order::<T>(),
    ensures
        ascending(ascending(s)) == ascending(s),
{
    lemma_ascending_sorts(s);
    lemma_ascending_sorts(ascending(s));
    lemma_ascending_unique(ascending(ascending(s)), ascending(s));
}

/// Two sequences that hold the same values, each as often, sort to the same
/// sequence: the order in which the values were given does not matter.
pub proof fn lemma_sort_of_permutation<T: PartialOrd>(s: Seq<T>, p: Seq<T>)
    requires
        is_total_order::<T>(),
        s.to_multiset() == p.to_multiset(),
    ensures
        ascending(s) == ascending(p),
{
    lemma_ascending_sorts(s);
    lemma_ascending_sorts(p);
    lemma_ascending_unique(ascending(s), ascending(p));
}

} // verus!

//! What it means to merge two sequences, stated over `Seq`, and what follows
//! from that definition.

use vstd::prelude::*;
use vstd::std_specs::cmp::PartialOrdIs;
use vstd::std_specs::cmp::PartialOrdSpec;

verus! {

/// `x <= y` in the order that `T` declares.
pub open spec fn at_most<T: PartialOrd>(x: T, y: T) -> bool {
    x.is_le(&y)
}

/// The comparison operators of `T` compute the order that `T` declares, so
/// that `x <= y` in executable code returns `at_most(x, y)`.
pub open spec fn compares_as_declared<T: PartialOrd>() -> bool {
    T::obeys_partial_cmp_spec()
}

/// The order that `T` declares compares any two values, one way or the
/// other, and is transitive.
pub open spec fn orders_totally<T: PartialOrd>() -> bool {
    &&& forall|x: T, y: T| #[trigger] at_most(x, y) || at_most(y, x)
    &&& orders_transitively::<T>()
}

/// The order that `T` declares is transitive.
pub open spec fn orders_transitively<T: PartialOrd>() -> bool {
    forall|x: T, y: T, z: T| #[trigger] at_most(x, y) && #[trigger] at_most(y, z) ==> at_most(x, z)
}

/// `s` is non-decreasing from end to end.
pub open spec fn sorted<T: PartialOrd>(s: Seq<T>) -> bool {
    forall|i: int, j: int| 0 <= i < j < s.len() ==> at_most(s[i], s[j])
}

/// The merge of `a` and `b`: at each step the smaller of the two front
/// elements leaves its sequence, and on a tie the front of `a` goes first.
pub open spec fn merged<T: PartialOrd>(a: Seq<T>, b: Seq<T>) -> Seq<T>
    decreases a.len() + b.len(),
{
    if a.len() == 0 {
        b
    } else if b.len() == 0 {
        a
    } else if at_most(a[0], b[0]) {
        seq![a[0]] + merged(a.drop_first(), b)
    } else {
        seq![b[0]] + merged(a, b.drop_first())
    }
}

/// `out` holds the elements of `a` and of `b`, each once, with those of `a`
/// in the order they have in `a` and those of `b` in the order they have in
/// `b`.
pub open spec fn interleaves<T>(out: Seq<T>, a: Seq<T>, b: Seq<T>) -> bool
    decreases out.len(),
{
    if out.len() == 0 {
        a.len() == 0 && b.len() == 0
    } else {
        ||| a.len() > 0 && a.last() == out.last() && interleaves(
            out.drop_last(),
            a.drop_last(),
            b,
        )
        ||| b.len() > 0 && b.last() == out.last() && interleaves(
            out.drop_last(),
            a,
            b.drop_last(),
        )
    }
}

/// Each element of `out` is a clone of the element of `src` at the same
/// place.
pub open spec fn copies<T: Clone>(src: Seq<T>, out: Seq<T>) -> bool {
    &&& out.len() == src.len()
    &&& forall|k: int| 0 <= k < src.len() ==> #[trigger] cloned(src[k], out[k])
}

/// A clone of a `T` is equal to the value it was cloned from.
pub open spec fn clone_is_exact<T: Clone>() -> bool {
    forall|x: T, y: T| #[trigger] cloned(x, y) ==> x == y
}

/// Where cloning is exact, a sequence of clones is the sequence itself.
pub proof fn lemma_exact_copies<T: Clone>(src: Seq<T>, out: Seq<T>)
    requires
        clone_is_exact::<T>(),
        copies(src, out),
    ensures
        out == src,
{
    assert forall|k: int| 0 <= k < src.len() implies out[k] == src[k] by {
        assert(cloned(src[k], out[k]));
    }
    assert(out =~= src);
}

/// The merge holds as many elements as its two operands together.
pub proof fn lemma_merged_len<T: PartialOrd>(a: Seq<T>, b: Seq<T>)
    ensures
        merged(a, b).len() == a.len() + b.len(),
    decreases a.len() + b.len(),
{
    if a.len() == 0 || b.len() == 0 {
    } else if at_most(a[0], b[0]) {
        lemma_merged_len(a.drop_first(), b);
    } else {
        lemma_merged_len(a, b.drop_first());
    }
}

/// Merging with an empty sequence changes nothing: the result is the other
/// operand, element for element.
pub proof fn lemma_merged_with_empty<T: PartialOrd>(s: Seq<T>)
    ensures
        merged(s, Seq::<T>::empty()) == s,
        merged(Seq::<T>::empty(), s) == s,
        merged(Seq::<T>::empty(), Seq::<T>::empty()) == Seq::<T>::empty(),
{
    assert(merged(s, Seq::<T>::empty()) =~= s);
}

/// Every sequence interleaves itself with nothing.
proof fn lemma_interleaves_alone<T>(s: Seq<T>)
    ensures
        interleaves(s, s, Seq::<T>::empty()),
        interleaves(s, Seq::<T>::empty(), s),
    decreases s.len(),
{
    if s.len() > 0 {
        lemma_interleaves_alone(s.drop_last());
    }
}

/// What interleaves a sequence with nothing is that sequence itself.
pub proof fn lemma_interleaves_with_empty<T>(out: Seq<T>, s: Seq<T>)
    ensures
        interleaves(out, s, Seq::<T>::empty()) ==> out == s,
        interleaves(out, Seq::<T>::empty(), s) ==> out == s,
    decreases out.len(),
{
    if out.len() == 0 {
        assert(s.len() == 0 ==> out =~= s);
    } else if s.len() > 0 {
        lemma_interleaves_with_empty(out.drop_last(), s.drop_last());
        if out.drop_last() == s.drop_last() && out.last() == s.last() {
            assert(out == out.drop_last().push(out.last()));
            assert(s == s.drop_last().push(s.last()));
        }
    }
}

/// An interleaving stays one when the same element is put in front of it and
/// in front of one of its two operands.
proof fn lemma_interleaves_behind<T>(x: T, out: Seq<T>, a: Seq<T>, b: Seq<T>)
    requires
        interleaves(out, a, b),
    ensures
        interleaves(seq![x] + out, seq![x] + a, b),
        interleaves(seq![x] + out, a, seq![x] + b),
    decreases out.len(),
{
    let front = seq![x];
    assert((front + out).drop_last() == if out.len() == 0 {
        Seq::<T>::empty()
    } else {
        front + out.drop_last()
    });
    if out.len() == 0 {
        assert((front + a).drop_last() == Seq::<T>::empty());
        assert((front + b).drop_last() == Seq::<T>::empty());
        assert(interleaves(Seq::<T>::empty(), Seq::<T>::empty(), b));
        assert(interleaves(Seq::<T>::empty(), a, Seq::<T>::empty()));
    } else if a.len() > 0 && a.last() == out.last() && interleaves(
        out.drop_last(),
        a.drop_last(),
        b,
    ) {
        lemma_interleaves_behind(x, out.drop_last(), a.drop_last(), b);
        assert((front + a).drop_last() == front + a.drop_last());
    } else {
        lemma_interleaves_behind(x, out.drop_last(), a, b.drop_last());
        assert((front + b).drop_last() == front + b.drop_last());
    }
}

/// The merge takes its elements from its two operands and keeps the order
/// that each operand had.
pub proof fn lemma_merged_interleaves<T: PartialOrd>(a: Seq<T>, b: Seq<T>)
    ensures
        interleaves(merged(a, b), a, b),
    decreases a.len() + b.len(),
{
    if a.len() == 0 {
        lemma_interleaves_alone(b);
        assert(a == Seq::<T>::empty());
    } else if b.len() == 0 {
        lemma_interleaves_alone(a);
        assert(b == Seq::<T>::empty());
    } else if at_most(a[0], b[0]) {
        lemma_merged_interleaves(a.drop_first(), b);
        lemma_interleaves_behind(a[0], merged(a.drop_first(), b), a.drop_first(), b);
        assert(seq![a[0]] + a.drop_first() == a);
    } else {
        lemma_merged_interleaves(a, b.drop_first());
        lemma_interleaves_behind(b[0], merged(a, b.drop_first()), a, b.drop_first());
        assert(seq![b[0]] + b.drop_first() == b);
    }
}

/// An interleaving loses no element and repeats none: as multisets, it is the
/// sum of its two operands.
pub proof fn lemma_interleaving_keeps_elements<T>(out: Seq<T>, a: Seq<T>, b: Seq<T>)
    requires
        interleaves(out, a, b),
    ensures
        out.to_multiset() == a.to_multiset().add(b.to_multiset()),
    decreases out.len(),
{
    broadcast use vstd::seq_lib::to_multiset_build;

    if out.len() == 0 {
        assert(out == Seq::<T>::empty() && a == out && b == out);
        assert(out.to_multiset() =~= out.to_multiset().add(out.to_multiset())) by {
            out.to_multiset_ensures();
        }
    } else if a.len() > 0 && a.last() == out.last() && interleaves(
        out.drop_last(),
        a.drop_last(),
        b,
    ) {
        lemma_interleaving_keeps_elements(out.drop_last(), a.drop_last(), b);
        assert(out == out.drop_last().push(out.last()));
        assert(a == a.drop_last().push(a.last()));
        assert(out.to_multiset() =~= a.to_multiset().add(b.to_multiset()));
    } else {
        lemma_interleaving_keeps_elements(out.drop_last(), a, b.drop_last());
        assert(out == out.drop_last().push(out.last()));
        assert(b == b.drop_last().push(b.last()));
        assert(out.to_multiset() =~= a.to_multiset().add(b.to_multiset()));
    }
}

/// The merge loses no element and repeats none, whether or not its operands
/// are sorted: as multisets, it is the sum of its two operands.
pub proof fn lemma_merged_keeps_elements<T: PartialOrd>(a: Seq<T>, b: Seq<T>)
    ensures
        merged(a, b).to_multiset() == a.to_multiset().add(b.to_multiset()),
{
    lemma_merged_interleaves(a, b);
    lemma_interleaving_keeps_elements(merged(a, b), a, b);
}

/// Each element of the merge is an element of one of the operands.
proof fn lemma_merged_element<T: PartialOrd>(a: Seq<T>, b: Seq<T>, k: int)
    requires
        0 <= k < merged(a, b).len(),
    ensures
        a.contains(merged(a, b)[k]) || b.contains(merged(a, b)[k]),
    decreases a.len() + b.len(),
{
    if a.len() == 0 || b.len() == 0 {
    } else if at_most(a[0], b[0]) {
        if k > 0 {
            lemma_merged_element(a.drop_first(), b, k - 1);
            let x = merged(a.drop_first(), b)[k - 1];
            if a.drop_first().contains(x) {
                let at = choose|at: int| 0 <= at < a.drop_first().len() && a.drop_first()[at] == x;
                assert(a[at + 1] == x);
            }
        }
    } else {
        if k > 0 {
            lemma_merged_element(a, b.drop_first(), k - 1);
            let x = merged(a, b.drop_first())[k - 1];
            if b.drop_first().contains(x) {
                let at = choose|at: int| 0 <= at < b.drop_first().len() && b.drop_first()[at] == x;
                assert(b[at + 1] == x);
            }
        }
    }
}

/// The merge of two sorted sequences is sorted, where the order compares any
/// two values and is transitive.
pub proof fn lemma_merged_sorted<T: PartialOrd>(a: Seq<T>, b: Seq<T>)
    requires
        orders_totally::<T>(),
        sorted(a),
        sorted(b),
    ensures
        sorted(merged(a, b)),
    decreases a.len() + b.len(),
{
    if a.len() == 0 || b.len() == 0 {
    } else {
        let from_a = at_most(a[0], b[0]);
        let first = if from_a { a[0] } else { b[0] };
        let rest_a = if from_a { a.drop_first() } else { a };
        let rest_b = if from_a { b } else { b.drop_first() };
        let rest = merged(rest_a, rest_b);
        lemma_merged_sorted(rest_a, rest_b);
        assert forall|k: int| 0 <= k < rest.len() implies at_most(first, #[trigger] rest[k]) by {
            lemma_merged_element(rest_a, rest_b, k);
            let x = rest[k];
            assert(at_most(a[0], b[0]) || at_most(b[0], a[0]));
            if rest_a.contains(x) {
                let at = choose|at: int| 0 <= at < rest_a.len() && rest_a[at] == x;
                if from_a {
                    assert(at_most(a[0], a[at + 1]));
                } else if at > 0 {
                    assert(at_most(a[0], a[at]));
                }
            } else {
                let at = choose|at: int| 0 <= at < rest_b.len() && rest_b[at] == x;
                if !from_a {
                    assert(at_most(b[0], b[at + 1]));
                } else if at > 0 {
                    assert(at_most(b[0], b[at]));
                }
            }
        }
        assert forall|i: int, j: int| 0 <= i < j < merged(a, b).len() implies at_most(
            merged(a, b)[i],
            merged(a, b)[j],
        ) by {
            assert(merged(a, b)[j] == rest[j - 1]);
            if i > 0 {
                assert(merged(a, b)[i] == rest[i - 1]);
            }
        }
    }
}

} // verus!

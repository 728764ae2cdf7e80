//! Where each element of the operands lands in the merge, and the order in
//! which elements of the two operands that compare equal come out.

use crate::merging::{at_most, lemma_merged_len, merged, orders_transitively, sorted};
use vstd::prelude::*;

verus! {

/// A tie at the front goes to `a`. Where the front of `a` is at most the
/// front of `b`, and so also where the two compare equal, the merge begins
/// with the front of `a`, and the front of `b` comes out later, in the merge
/// of what is left of `a` with all of `b`.
pub proof fn lemma_tie_at_front<T: PartialOrd>(a: Seq<T>, b: Seq<T>)
    requires
        a.len() > 0,
        b.len() > 0,
        at_most(a[0], b[0]),
    ensures
        merged(a, b)[0] == a[0],
        merged(a, b).drop_first() == merged(a.drop_first(), b),
{
    assert(merged(a, b).drop_first() =~= merged(a.drop_first(), b));
}

/// The number of elements of `s` that are at most `y`.
pub open spec fn count_at_most<T: PartialOrd>(s: Seq<T>, y: T) -> nat
    decreases s.len(),
{
    if s.len() == 0 {
        0
    } else {
        count_at_most(s.drop_first(), y) + if at_most(s[0], y) {
            1nat
        } else {
            0nat
        }
    }
}

/// The number of elements of `s` that lie below `x`: those that `x` is not
/// at most.
pub open spec fn count_below<T: PartialOrd>(s: Seq<T>, x: T) -> nat
    decreases s.len(),
{
    if s.len() == 0 {
        0
    } else {
        count_below(s.drop_first(), x) + if at_most(x, s[0]) {
            0nat
        } else {
            1nat
        }
    }
}

/// The place in `merged(a, b)` of the element at `i` in `a`. Ahead of it go
/// the elements before it in `a` and the elements of `b` below it.
pub open spec fn place_of_left<T: PartialOrd>(a: Seq<T>, b: Seq<T>, i: int) -> int {
    i + count_below(b, a[i])
}

/// The place in `merged(a, b)` of the element at `j` in `b`. Ahead of it go
/// the elements before it in `b` and the elements of `a` that are at most
/// it, so also those that compare equal to it.
pub open spec fn place_of_right<T: PartialOrd>(a: Seq<T>, b: Seq<T>, j: int) -> int {
    j + count_at_most(a, b[j])
}

/// Where the first `n` elements of `s` are at most `y`, the count is no
/// less than `n`; where no element from `n` on is, it is no more than `n`.
proof fn lemma_count_at_most_bounds<T: PartialOrd>(s: Seq<T>, y: T, n: int)
    requires
        0 <= n <= s.len(),
    ensures
        (forall|k: int| 0 <= k < n ==> at_most(#[trigger] s[k], y)) ==> count_at_most(s, y) >= n,
        (forall|k: int| n <= k < s.len() ==> !at_most(#[trigger] s[k], y)) ==> count_at_most(s, y)
            <= n,
        count_at_most(s, y) <= s.len(),
    decreases s.len(),
{
    if s.len() > 0 {
        let rest = s.drop_first();
        lemma_count_at_most_bounds(rest, y, if n > 0 { n - 1 } else { 0 });
        if forall|k: int| 0 <= k < n ==> at_most(#[trigger] s[k], y) {
            assert forall|k: int| 0 <= k < n - 1 implies at_most(#[trigger] rest[k], y) by {
                assert(rest[k] == s[k + 1]);
            }
        }
        if forall|k: int| n <= k < s.len() ==> !at_most(#[trigger] s[k], y) {
            assert forall|k: int| (if n > 0 { n - 1 } else { 0 }) <= k < rest.len() implies !at_most(
                #[trigger] rest[k],
                y,
            ) by {
                assert(rest[k] == s[k + 1]);
            }
        }
    }
}

/// Where the first `n` elements of `s` lie below `x`, the count is no less
/// than `n`; where no element from `n` on does, it is no more than `n`.
proof fn lemma_count_below_bounds<T: PartialOrd>(s: Seq<T>, x: T, n: int)
    requires
        0 <= n <= s.len(),
    ensures
        (forall|k: int| 0 <= k < n ==> !at_most(x, #[trigger] s[k])) ==> count_below(s, x) >= n,
        (forall|k: int| n <= k < s.len() ==> at_most(x, #[trigger] s[k])) ==> count_below(s, x)
            <= n,
        count_below(s, x) <= s.len(),
    decreases s.len(),
{
    if s.len() > 0 {
        let rest = s.drop_first();
        lemma_count_below_bounds(rest, x, if n > 0 { n - 1 } else { 0 });
        if forall|k: int| 0 <= k < n ==> !at_most(x, #[trigger] s[k]) {
            assert forall|k: int| 0 <= k < n - 1 implies !at_most(x, #[trigger] rest[k]) by {
                assert(rest[k] == s[k + 1]);
            }
        }
        if forall|k: int| n <= k < s.len() ==> at_most(x, #[trigger] s[k]) {
            assert forall|k: int| (if n > 0 { n - 1 } else { 0 }) <= k < rest.len() implies at_most(
                x,
                #[trigger] rest[k],
            ) by {
                assert(rest[k] == s[k + 1]);
            }
        }
    }
}

/// In the merge of two sorted sequences, the element at `i` in `a` stands at
/// `place_of_left(a, b, i)`.
pub proof fn lemma_place_of_left<T: PartialOrd>(a: Seq<T>, b: Seq<T>, i: int)
    requires
        orders_transitively::<T>(),
        sorted(a),
        sorted(b),
        0 <= i < a.len(),
    ensures
        0 <= place_of_left(a, b, i) < merged(a, b).len(),
        merged(a, b)[place_of_left(a, b, i)] == a[i],
    decreases a.len() + b.len(),
{
    lemma_merged_len(a, b);
    if b.len() == 0 {
    } else if at_most(a[0], b[0]) {
        let rest = a.drop_first();
        if i == 0 {
            assert forall|k: int| 0 <= k < b.len() implies at_most(a[0], #[trigger] b[k]) by {
                if k > 0 {
                    assert(at_most(b[0], b[k]));
                }
            }
            lemma_count_below_bounds(b, a[0], 0);
        } else {
            assert(sorted(rest)) by {
                assert forall|p: int, q: int| 0 <= p < q < rest.len() implies at_most(
                    rest[p],
                    rest[q],
                ) by {
                    assert(at_most(a[p + 1], a[q + 1]));
                }
            }
            lemma_place_of_left(rest, b, i - 1);
            lemma_merged_len(rest, b);
        }
    } else {
        let rest = b.drop_first();
        assert(sorted(rest)) by {
            assert forall|p: int, q: int| 0 <= p < q < rest.len() implies at_most(
                rest[p],
                rest[q],
            ) by {
                assert(at_most(b[p + 1], b[q + 1]));
            }
        }
        lemma_place_of_left(a, rest, i);
        lemma_merged_len(a, rest);
        if i > 0 {
            assert(at_most(a[0], a[i]));
        }
        assert(!at_most(a[i], b[0]));
    }
}

/// In the merge of two sorted sequences, the element at `j` in `b` stands at
/// `place_of_right(a, b, j)`.
pub proof fn lemma_place_of_right<T: PartialOrd>(a: Seq<T>, b: Seq<T>, j: int)
    requires
        orders_transitively::<T>(),
        sorted(a),
        sorted(b),
        0 <= j < b.len(),
    ensures
        0 <= place_of_right(a, b, j) < merged(a, b).len(),
        merged(a, b)[place_of_right(a, b, j)] == b[j],
    decreases a.len() + b.len(),
{
    lemma_merged_len(a, b);
    if a.len() == 0 {
    } else if at_most(a[0], b[0]) {
        let rest = a.drop_first();
        assert(sorted(rest)) by {
            assert forall|p: int, q: int| 0 <= p < q < rest.len() implies at_most(
                rest[p],
                rest[q],
            ) by {
                assert(at_most(a[p + 1], a[q + 1]));
            }
        }
        lemma_place_of_right(rest, b, j);
        lemma_merged_len(rest, b);
        if j > 0 {
            assert(at_most(b[0], b[j]));
        }
        assert(at_most(a[0], b[j]));
    } else {
        let rest = b.drop_first();
        if j == 0 {
            assert forall|k: int| 0 <= k < a.len() implies !at_most(#[trigger] a[k], b[0]) by {
                if k > 0 {
                    assert(at_most(a[0], a[k]));
                }
            }
            lemma_count_at_most_bounds(a, b[0], 0);
        } else {
            assert(sorted(rest)) by {
                assert forall|p: int, q: int| 0 <= p < q < rest.len() implies at_most(
                    rest[p],
                    rest[q],
                ) by {
                    assert(at_most(b[p + 1], b[q + 1]));
                }
            }
            lemma_place_of_right(a, rest, j - 1);
            lemma_merged_len(a, rest);
        }
    }
}

/// The merge is stable. In the merge of two sorted sequences an element of
/// `a` comes out before an element of `b` if it is at most that element, and
/// after it otherwise: where the two compare equal, the one of `a` comes
/// first.
pub proof fn lemma_merge_is_stable<T: PartialOrd>(a: Seq<T>, b: Seq<T>, i: int, j: int)
    requires
        orders_transitively::<T>(),
        sorted(a),
        sorted(b),
        0 <= i < a.len(),
        0 <= j < b.len(),
    ensures
        0 <= place_of_left(a, b, i) < merged(a, b).len(),
        0 <= place_of_right(a, b, j) < merged(a, b).len(),
        merged(a, b)[place_of_left(a, b, i)] == a[i],
        merged(a, b)[place_of_right(a, b, j)] == b[j],
        at_most(a[i], b[j]) ==> place_of_left(a, b, i) < place_of_right(a, b, j),
        !at_most(a[i], b[j]) ==> place_of_right(a, b, j) < place_of_left(a, b, i),
{
    lemma_place_of_left(a, b, i);
    lemma_place_of_right(a, b, j);
    if at_most(a[i], b[j]) {
        assert forall|k: int| j <= k < b.len() implies at_most(a[i], #[trigger] b[k]) by {
            if k > j {
                assert(at_most(b[j], b[k]));
            }
        }
        lemma_count_below_bounds(b, a[i], j);
        assert forall|k: int| 0 <= k < i + 1 implies at_most(#[trigger] a[k], b[j]) by {
            if k < i {
                assert(at_most(a[k], a[i]));
            }
        }
        lemma_count_at_most_bounds(a, b[j], i + 1);
    } else {
        assert forall|k: int| 0 <= k < j + 1 implies !at_most(a[i], #[trigger] b[k]) by {
            if k < j {
                assert(at_most(b[k], b[j]));
            }
        }
        lemma_count_below_bounds(b, a[i], j + 1);
        assert forall|k: int| i <= k < a.len() implies !at_most(#[trigger] a[k], b[j]) by {
            if k > i {
                assert(at_most(a[i], a[k]));
            }
        }
        lemma_count_at_most_bounds(a, b[j], i);
    }
}

} // verus!

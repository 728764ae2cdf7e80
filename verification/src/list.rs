//! The list itself: an arena of cells chained by slot numbers.

use crate::merging::{
    clone_is_exact, compares_as_declared, copies, interleaves, lemma_exact_copies,
    lemma_interleaves_with_empty, merged,
};
use crate::node::Node;
use crate::text::{join, joined, shown_as, texts};
use std::fmt::Display;
use vstd::prelude::*;

verus! {

/// A singly linked list of `T` that grows at its tail.
///
/// The cells live in an arena and name their successor by its slot. The list
/// keeps the slot of the first cell, the slot of the last cell, and the
/// number of cells.
pub struct LinkedList<T> {
    length: usize,
    start: Option<usize>,
    end: Option<usize>,
    nodes: Vec<Node<T>>,
}

impl<T> View for LinkedList<T> {
    type V = Seq<T>;

    /// The values of the list, from the first cell to the last.
    closed spec fn view(&self) -> Seq<T> {
        Seq::new(self.nodes@.len(), |i: int| self.nodes@[i].val)
    }
}

impl<T> LinkedList<T> {
    /// The chain starts in slot 0, each cell is followed by the cell in the
    /// next slot, the last cell is followed by nothing, and `length` counts
    /// the cells.
    #[verifier::type_invariant]
    spec fn chained(&self) -> bool {
        let n = self.nodes@.len();
        &&& self.length == n
        &&& self.start == (if n == 0 { None } else { Some(0usize) })
        &&& self.end == (if n == 0 { None } else { Some((n - 1) as usize) })
        &&& forall|i: int|
            0 <= i < n ==> (#[trigger] self.nodes@[i]).next == (if i + 1 < n {
                Some((i + 1) as usize)
            } else {
                None
            })
    }

    /// An empty list.
    pub fn new() -> (list: Self)
        ensures
            list@ == Seq::<T>::empty(),
    {
        LinkedList { length: 0, start: None, end: None, nodes: Vec::new() }
    }

    /// The number of elements.
    pub fn length(&self) -> (count: usize)
        ensures
            count == self@.len(),
    {
        proof {
            use_type_invariant(self);
        }
        self.length
    }
}

impl<T> Default for LinkedList<T> {
    /// An empty list.
    fn default() -> (list: Self)
        ensures
            list@ == Seq::<T>::empty(),
    {
        Self::new()
    }
}

impl<T: PartialOrd + Clone> LinkedList<T> {
    /// Appends `obj` behind the last element.
    pub fn add(&mut self, obj: T)
        ensures
            final(self)@ == old(self)@.push(obj),
    {
        proof {
            use_type_invariant(&*self);
        }
        // The list is taken apart and put together again, so that it is
        // never seen half changed.
        let mut taken = LinkedList::new();
        core::mem::swap(self, &mut taken);
        let LinkedList { length: _, start, end, mut nodes } = taken;
        let slot = nodes.len();
        nodes.push(Node::new(obj));
        let start = match end {
            None => Some(slot),
            Some(last) => {
                nodes[last].next = Some(slot);
                start
            },
        };
        // One cell more: the count is taken from the arena, which cannot
        // hold more cells than a `usize` counts.
        let length = nodes.len();
        *self = LinkedList { length, start, end: Some(slot), nodes };
    }

    /// The element at `index`, counted from 0, or `None` where the list has
    /// no such element. Walks the chain from its first cell.
    pub fn get(&self, index: i32) -> (found: Option<&T>)
        ensures
            found == (if 0 <= index < self@.len() {
                Some(&self@[index as int])
            } else {
                None
            }),
    {
        proof {
            use_type_invariant(self);
        }
        if index < 0 || index as usize >= self.length {
            return None;
        }
        let mut cur = self.start;
        for step in 0..index
            invariant
                self.chained(),
                0 <= index < self.nodes@.len(),
                cur == Some(step as usize),
        {
            cur = self.nodes[cur.unwrap()].next;
        }
        Some(&self.nodes[cur.unwrap()].val)
    }

    /// Merges two lists into a new one. At each step the smaller of the two
    /// front elements is cloned into the result, and on a tie the one of
    /// `list_a` goes first.
    ///
    /// Whatever `<=` does on `T`, the result holds a clone of each element of
    /// the two lists, and keeps the order that each list had. Where `<=`
    /// computes the order that `T` declares, the result is `merged` of the
    /// two lists, clone for element; where cloning is exact as well, it is
    /// that sequence itself. The lists need not be sorted: `merged` is
    /// defined for all sequences, and is sorted where both operands are.
    pub fn merge(list_a: LinkedList<T>, list_b: LinkedList<T>) -> (out: Self)
        ensures
            exists|src: Seq<T>| #[trigger] interleaves(src, list_a@, list_b@) && copies(src, out@),
            list_a@.len() == 0 ==> copies(list_b@, out@),
            list_b@.len() == 0 ==> copies(list_a@, out@),
            compares_as_declared::<T>() ==> copies(merged(list_a@, list_b@), out@),
            compares_as_declared::<T>() && clone_is_exact::<T>() ==> out@ == merged(
                list_a@,
                list_b@,
            ),
    {
        proof {
            use_type_invariant(&list_a);
            use_type_invariant(&list_b);
        }
        let mut out = LinkedList::new();
        let mut cur_a = list_a.start;
        let mut cur_b = list_b.start;
        let ghost a = list_a@;
        let ghost b = list_b@;
        let ghost mut i: int = 0;
        let ghost mut j: int = 0;
        let ghost mut src: Seq<T> = Seq::empty();
        proof {
            assert(a.skip(0) == a);
            assert(b.skip(0) == b);
            assert(src + merged(a, b) == merged(a, b));
        }
        while cur_a.is_some() || cur_b.is_some()
            invariant
                list_a.chained(),
                list_b.chained(),
                a == list_a@,
                b == list_b@,
                0 <= i <= a.len(),
                0 <= j <= b.len(),
                cur_a == (if i < a.len() { Some(i as usize) } else { None }),
                cur_b == (if j < b.len() { Some(j as usize) } else { None }),
                src.len() == i + j,
                copies(src, out@),
                interleaves(src, a.take(i), b.take(j)),
                compares_as_declared::<T>() ==> merged(a, b) == src + merged(a.skip(i), b.skip(j)),
            decreases a.len() - i + b.len() - j,
        {
            let from_a = match (cur_a, cur_b) {
                (Some(at_a), Some(at_b)) => list_a.nodes[at_a].val <= list_b.nodes[at_b].val,
                (Some(_), None) => true,
                _ => false,
            };
            if from_a {
                let at_a = cur_a.unwrap();
                out.add(list_a.nodes[at_a].val.clone());
                cur_a = list_a.nodes[at_a].next;
                proof {
                    assert(a.skip(i).drop_first() == a.skip(i + 1));
                    assert(a.take(i + 1).drop_last() == a.take(i));
                    assert(src.push(a[i]).drop_last() == src);
                    assert(src + (seq![a[i]] + merged(a.skip(i + 1), b.skip(j))) == src.push(a[i])
                        + merged(a.skip(i + 1), b.skip(j)));
                    src = src.push(a[i]);
                    i = i + 1;
                }
            } else {
                let at_b = cur_b.unwrap();
                out.add(list_b.nodes[at_b].val.clone());
                cur_b = list_b.nodes[at_b].next;
                proof {
                    assert(b.skip(j).drop_first() == b.skip(j + 1));
                    assert(b.take(j + 1).drop_last() == b.take(j));
                    assert(src.push(b[j]).drop_last() == src);
                    assert(src + (seq![b[j]] + merged(a.skip(i), b.skip(j + 1))) == src.push(b[j])
                        + merged(a.skip(i), b.skip(j + 1)));
                    src = src.push(b[j]);
                    j = j + 1;
                }
            }
        }
        proof {
            assert(a.take(i) == a);
            assert(b.take(j) == b);
            assert(src + merged(a.skip(i), b.skip(j)) == src);
            if a.len() == 0 {
                assert(a == Seq::<T>::empty());
                lemma_interleaves_with_empty(src, b);
            }
            if b.len() == 0 {
                assert(b == Seq::<T>::empty());
                lemma_interleaves_with_empty(src, a);
            }
            if compares_as_declared::<T>() && clone_is_exact::<T>() {
                lemma_exact_copies(merged(a, b), out@);
            }
        }
        out
    }
}

impl<T: Display> LinkedList<T> {
    /// The textual forms of the elements, in the order of the list,
    /// separated by `", "`: the empty string for an empty list.
    pub fn render(&self) -> (text: String)
        ensures
            exists|parts: Seq<String>| #[trigger]
                shown_as(self@, parts) && text@ == joined(texts(parts)),
    {
        proof {
            use_type_invariant(self);
        }
        let mut parts: Vec<String> = Vec::new();
        let mut cur = self.start;
        while cur.is_some()
            invariant
                self.chained(),
                parts@.len() <= self.nodes@.len(),
                cur == (if parts@.len() < self.nodes@.len() {
                    Some(parts@.len() as usize)
                } else {
                    None
                }),
                shown_as(self@.take(parts@.len() as int), parts@),
            decreases self.nodes@.len() - parts@.len(),
        {
            let at = cur.unwrap();
            parts.push(self.nodes[at].val.to_string());
            cur = self.nodes[at].next;
        }
        assert(self@.take(parts@.len() as int) == self@);
        join(&parts)
    }
}

/// The sequence that comes of adding each element of `items` in turn, from
/// the first to the last, to an empty list.
pub open spec fn added_in_turn<T>(items: Seq<T>) -> Seq<T>
    decreases items.len(),
{
    if items.len() == 0 {
        Seq::empty()
    } else {
        added_in_turn(items.drop_last()).push(items.last())
    }
}

/// A list built by `n` calls of `add` holds `n` elements, and the element
/// at each place is the one that was added at that turn.
pub proof fn lemma_added_in_turn<T>(items: Seq<T>)
    ensures
        added_in_turn(items).len() == items.len(),
        forall|i: int| 0 <= i < items.len() ==> added_in_turn(items)[i] == items[i],
        added_in_turn(items) == items,
    decreases items.len(),
{
    if items.len() > 0 {
        lemma_added_in_turn(items.drop_last());
        assert(items.drop_last().push(items.last()) == items);
    }
}

} // verus!

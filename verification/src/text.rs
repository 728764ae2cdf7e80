//! How a list is written out as text.

use std::fmt::Display;
use vstd::prelude::*;
use vstd::string::to_string_from_display_ensures;

verus! {

/// What stands between two elements of a rendered list: a comma and a space.
pub open spec fn separator() -> Seq<char> {
    seq![',', ' ']
}

/// The texts of `parts` one after the other, with the separator between each
/// two of them, and nothing before the first or after the last.
pub open spec fn joined(parts: Seq<Seq<char>>) -> Seq<char>
    decreases parts.len(),
{
    if parts.len() == 0 {
        Seq::empty()
    } else if parts.len() == 1 {
        parts[0]
    } else {
        joined(parts.drop_last()) + separator() + parts.last()
    }
}

/// The characters of each string of `parts`.
pub open spec fn texts(parts: Seq<String>) -> Seq<Seq<char>> {
    Seq::new(parts.len(), |i: int| parts[i]@)
}

/// `parts` holds, place for place, a textual form of each element of
/// `items`: what `to_string` may return for it.
pub open spec fn shown_as<T: Display>(items: Seq<T>, parts: Seq<String>) -> bool {
    &&& parts.len() == items.len()
    &&& forall|i: int|
        0 <= i < items.len() ==> #[trigger] to_string_from_display_ensures::<T>(
            &items[i],
            parts[i],
        )
}

/// Writes `parts` in order into one string, separated by `", "`.
pub fn join(parts: &Vec<String>) -> (text: String)
    ensures
        text@ == joined(texts(parts@)),
{
    let mut text = String::new();
    let ghost all = texts(parts@);
    for i in 0..parts.len()
        invariant
            all == texts(parts@),
            text@ == joined(all.take(i as int)),
    {
        if i > 0 {
            text.append(", ");
        }
        text.append(parts[i].as_str());
        proof {
            reveal_strlit(", ");
            assert(", "@ == separator());
            assert(all.take(i + 1).drop_last() == all.take(i as int));
        }
    }
    assert(all.take(parts@.len() as int) == all);
    text
}

} // verus!

//! Lists.

use vstd::prelude::*;

verus! {

/// A list the other way round.
pub fn reversed<T>(list: Vec<T>) -> (back: Vec<T>)
    ensures
        back@ == list@.reverse(),
{
    let ghost whole = list@;
    let mut rest = list;
    let mut back: Vec<T> = Vec::new();
    while rest.len() > 0
        invariant
            back@.len() + rest@.len() == whole.len(),
            rest@ == whole.take(rest@.len() as int),
            forall|i: int| 0 <= i < back@.len() ==> #[trigger] back@[i] == whole[whole.len() - 1 - i],
        decreases rest@.len(),
    {
        match rest.pop() {
            Some(item) => {
                back.push(item);
            },
            None => {},
        }
    }
    assert(back@ =~= whole.reverse());
    back
}

} // verus!

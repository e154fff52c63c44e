//! Items that refer to one another by index, and whether every chain of references ends.

use vstd::prelude::*;

verus! {

/// Whether every chain of references from item `i` on has fewer than `length` steps.
pub open spec fn ends(refers: Seq<Seq<int>>, i: int, length: nat) -> bool
    decreases length,
{
    length > 0 && forall|k: int|
        0 <= k < refers[i].len() ==> ends(refers, #[trigger] refers[i][k], (length - 1) as nat)
}

/// Whether every chain of references ends. One that runs through more steps than there are items
/// comes back to an item it has passed, and goes on forever.
pub open spec fn all_end(refers: Seq<Seq<int>>) -> bool {
    forall|i: int| 0 <= i < refers.len() ==> #[trigger] ends(refers, i, refers.len())
}

/// Whether every reference is to one of the items.
pub open spec fn within(refers: Seq<Seq<int>>) -> bool {
    forall|i: int, k: int|
        0 <= i < refers.len() && 0 <= k < refers[i].len() ==> 0 <= #[trigger] refers[i][k]
            < refers.len()
}

/// The references as mathematical integers.
pub open spec fn indices(refers: Seq<Vec<usize>>) -> Seq<Seq<int>> {
    Seq::new(refers.len(), |i: int| Seq::new(refers[i]@.len(), |k: int| refers[i]@[k] as int))
}

/// Once a length settles no more items than the one before it, no greater one does.
proof fn lemma_settled(refers: Seq<Seq<int>>, length: nat, longer: nat, i: int)
    requires
        within(refers),
        length <= longer,
        0 <= i < refers.len(),
        forall|j: int|
            0 <= j < refers.len() ==> #[trigger] ends(refers, j, length) == ends(
                refers,
                j,
                (length + 1) as nat,
            ),
    ensures
        ends(refers, i, longer) == ends(refers, i, length),
    decreases longer,
{
    if longer > length {
        let shorter = (longer - 1) as nat;
        assert forall|k: int| 0 <= k < refers[i].len() implies ends(
            refers,
            #[trigger] refers[i][k],
            shorter,
        ) == ends(refers, refers[i][k], length) by {
            lemma_settled(refers, length, shorter, refers[i][k]);
        }
        assert(ends(refers, i, length) == ends(refers, i, (length + 1) as nat));
    }
}

/// Whether every reference of the list is to an item that is marked.
fn all_marked(references: &Vec<usize>, marked: &Vec<bool>) -> (result: bool)
    requires
        forall|k: int| 0 <= k < references@.len() ==> (#[trigger] references@[k]) < marked@.len(),
    ensures
        result == forall|k: int|
            0 <= k < references@.len() ==> marked@[(#[trigger] references@[k]) as int],
{
    let mut k: usize = 0;
    while k < references.len()
        invariant
            k <= references@.len(),
            forall|m: int|
                0 <= m < references@.len() ==> (#[trigger] references@[m]) < marked@.len(),
            forall|m: int| 0 <= m < k ==> marked@[(#[trigger] references@[m]) as int],
        decreases references@.len() - k,
    {
        if !marked[references[k]] {
            assert(!marked@[references@[k as int] as int]);
            return false;
        }
        k += 1;
    }
    true
}

/// For every item, whether every chain of references from it on ends.
pub fn which_end(refers: &Vec<Vec<usize>>) -> (result: Vec<bool>)
    requires
        within(indices(refers@)),
    ensures
        result@.len() == refers@.len(),
        forall|i: int|
            0 <= i < result@.len() ==> #[trigger] result@[i] == ends(
                indices(refers@),
                i,
                refers@.len(),
            ),
{
    let ghost all = indices(refers@);
    let count: usize = refers.len();
    let mut settled: Vec<bool> = Vec::new();
    while settled.len() < count
        invariant
            settled@.len() <= count,
            count == all.len(),
            forall|i: int| 0 <= i < settled@.len() ==> #[trigger] settled@[i] == ends(all, i, 0),
        decreases count - settled@.len(),
    {
        settled.push(false);
    }
    let mut length: usize = 0;
    let mut changed = true;
    while length < count && changed
        invariant
            all == indices(refers@),
            within(all),
            count == all.len(),
            count == refers@.len(),
            settled@.len() == count,
            length <= count,
            forall|i: int|
                0 <= i < count ==> #[trigger] settled@[i] == ends(all, i, length as nat),
            !changed ==> length > 0 && forall|i: int|
                0 <= i < count ==> #[trigger] ends(all, i, (length - 1) as nat) == ends(
                    all,
                    i,
                    length as nat,
                ),
        decreases count - length,
    {
        let mut next: Vec<bool> = Vec::new();
        changed = false;
        let mut i: usize = 0;
        while i < count
            invariant
                all == indices(refers@),
                within(all),
                count == all.len(),
                count == refers@.len(),
                settled@.len() == count,
                i <= count,
                length < count,
                next@.len() == i,
                forall|j: int|
                    0 <= j < count ==> #[trigger] settled@[j] == ends(all, j, length as nat),
                forall|j: int| 0 <= j < i ==> #[trigger] next@[j] == ends(all, j, (length + 1) as nat),
                !changed ==> forall|j: int| 0 <= j < i ==> #[trigger] next@[j] == settled@[j],
            decreases count - i,
        {
            assert forall|k: int| 0 <= k < refers@[i as int]@.len() implies (
            #[trigger] refers@[i as int]@[k]) < count && settled@[refers@[i as int]@[k] as int]
                == ends(all, all[i as int][k], length as nat) by {
                assert(0 <= all[i as int][k] < all.len());
            }
            let ended = all_marked(&refers[i], &settled);
            proof {
                let there = refers@[i as int]@;
                if ended {
                    assert forall|k: int| 0 <= k < all[i as int].len() implies ends(
                        all,
                        #[trigger] all[i as int][k],
                        length as nat,
                    ) by {
                        assert(settled@[there[k] as int]);
                    }
                } else {
                    let k = choose|k: int|
                        0 <= k < there.len() && !settled@[(#[trigger] there[k]) as int];
                    assert(!ends(all, all[i as int][k], length as nat));
                }
                assert(ended == ends(all, i as int, (length + 1) as nat));
            }
            if ended != settled[i] {
                changed = true;
            }
            next.push(ended);
            i += 1;
        }
        assert(!changed ==> forall|j: int|
            0 <= j < count ==> #[trigger] ends(all, j, length as nat) == ends(
                all,
                j,
                (length + 1) as nat,
            )) by {
            if !changed {
                assert forall|j: int| 0 <= j < count implies #[trigger] ends(all, j, length as nat)
                    == ends(all, j, (length + 1) as nat) by {
                    assert(next@[j] == settled@[j]);
                }
            }
        }
        settled = next;
        length += 1;
    }
    proof {
        if length < count {
            let before = (length - 1) as nat;
            assert forall|i: int| 0 <= i < count implies ends(all, i, count as nat)
                == #[trigger] ends(all, i, length as nat) by {
                lemma_settled(all, before, count as nat, i);
                lemma_settled(all, before, length as nat, i);
            }
        }
    }
    settled
}

/// Whether every chain of references ends.
pub fn all_chains_end(refers: &Vec<Vec<usize>>) -> (result: bool)
    requires
        within(indices(refers@)),
    ensures
        result == all_end(indices(refers@)),
{
    let ghost all = indices(refers@);
    let count: usize = refers.len();
    let settled = which_end(refers);
    let mut i: usize = 0;
    while i < count
        invariant
            all == indices(refers@),
            i <= count,
            count == all.len(),
            settled@.len() == count,
            forall|j: int| 0 <= j < count ==> #[trigger] settled@[j] == ends(all, j, count as nat),
            forall|j: int| 0 <= j < i ==> #[trigger] ends(all, j, count as nat),
        decreases count - i,
    {
        if !settled[i] {
            assert(!ends(all, i as int, all.len()));
            return false;
        }
        i += 1;
    }
    true
}

} // verus!

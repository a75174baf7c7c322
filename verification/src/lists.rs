//! Lists of vertex indices read as sets: membership, removal, appending.

use vstd::prelude::*;

verus! {

/// Whether `v` is an entry of `list`.
pub open spec fn occurs_in(list: Seq<usize>, v: int) -> bool {
    exists|k: int| 0 <= k < list.len() && #[trigger] list[k] == v
}

/// The entries of `list` that do not occur in `removed`, in their order.
pub open spec fn without(list: Seq<usize>, removed: Seq<usize>) -> Seq<usize>
    decreases list.len(),
{
    if list.len() == 0 {
        list
    } else if occurs_in(removed, list.last() as int) {
        without(list.drop_last(), removed)
    } else {
        without(list.drop_last(), removed).push(list.last())
    }
}

/// Removal keeps exactly the entries that do not occur in `removed`, makes
/// the list no longer, makes it shorter where an entry is removed, and
/// leaves a list without repetitions without repetitions.
pub proof fn lemma_without(list: Seq<usize>, removed: Seq<usize>)
    ensures
        forall|x: int|
            #[trigger] occurs_in(without(list, removed), x) <==> occurs_in(list, x) && !occurs_in(
                removed,
                x,
            ),
        without(list, removed).len() <= list.len(),
        (exists|k: int| 0 <= k < list.len() && occurs_in(removed, #[trigger] list[k] as int))
            ==> without(list, removed).len() < list.len(),
        list.no_duplicates() ==> without(list, removed).no_duplicates(),
    decreases list.len(),
{
    if list.len() > 0 {
        let shorter = list.drop_last();
        let last = list.last();
        let kept = without(shorter, removed);
        let all = without(list, removed);
        lemma_without(shorter, removed);
        assert forall|x: int|
            occurs_in(all, x) <==> occurs_in(list, x) && !occurs_in(removed, x) by {
            if occurs_in(all, x) {
                let k = choose|k: int| 0 <= k < all.len() && all[k] == x;
                if k < kept.len() {
                    assert(kept[k] == x);
                    assert(occurs_in(kept, x));
                    assert(occurs_in(shorter, x));
                    let j = choose|j: int| 0 <= j < shorter.len() && shorter[j] == x;
                    assert(list[j] == x);
                } else {
                    assert(list[list.len() - 1] == x);
                }
            }
            if occurs_in(list, x) && !occurs_in(removed, x) {
                let j = choose|j: int| 0 <= j < list.len() && list[j] == x;
                if j < shorter.len() {
                    assert(shorter[j] == x);
                    assert(occurs_in(kept, x));
                    let k = choose|k: int| 0 <= k < kept.len() && kept[k] == x;
                    assert(all[k] == x);
                } else {
                    assert(all[all.len() - 1] == x);
                }
            }
        }
        if exists|k: int| 0 <= k < list.len() && occurs_in(removed, #[trigger] list[k] as int) {
            let k = choose|k: int|
                0 <= k < list.len() && occurs_in(removed, #[trigger] list[k] as int);
            if k < shorter.len() {
                assert(occurs_in(removed, shorter[k] as int));
            }
        }
        if list.no_duplicates() {
            assert(shorter.no_duplicates());
            if !occurs_in(removed, last as int) {
                assert forall|i: int, j: int| 0 <= i < all.len() && 0 <= j < all.len() && i
                    != j implies all[i] != all[j] by {
                    if i == kept.len() || j == kept.len() {
                        let other = if i == kept.len() {
                            j
                        } else {
                            i
                        };
                        assert(occurs_in(kept, kept[other] as int));
                        let m = choose|m: int| 0 <= m < shorter.len() && shorter[m] == kept[other];
                        assert(list[m] != list[list.len() - 1]);
                    }
                }
            }
        }
    }
}

/// Whether `x` is an entry of `list`.
pub fn contains(list: &[usize], x: usize) -> (found: bool)
    ensures
        found == occurs_in(list@, x as int),
{
    let mut k: usize = 0;
    while k < list.len()
        invariant
            k <= list@.len(),
            forall|i: int| 0 <= i < k ==> list@[i] != x,
        decreases list@.len() - k,
    {
        if list[k] == x {
            return true;
        }
        k += 1;
    }
    false
}

/// The entries of `list` that do not occur in `removed`, in their order.
pub fn retain_absent(list: &[usize], removed: &[usize]) -> (kept: Vec<usize>)
    ensures
        kept@ == without(list@, removed@),
{
    let mut kept: Vec<usize> = Vec::new();
    let mut i: usize = 0;
    while i < list.len()
        invariant
            i <= list@.len(),
            kept@ == without(list@.take(i as int), removed@),
        decreases list@.len() - i,
    {
        assert(list@.take(i + 1).drop_last() == list@.take(i as int));
        if !contains(removed, list[i]) {
            kept.push(list[i]);
        }
        i += 1;
    }
    assert(list@.take(i as int) == list@);
    kept
}

/// Appends the entries of `source` to `target`.
pub fn append_copy(target: &mut Vec<usize>, source: &[usize])
    ensures
        final(target)@ == old(target)@ + source@,
{
    let ghost given = target@;
    let mut i: usize = 0;
    while i < source.len()
        invariant
            i <= source@.len(),
            target@ == given + source@.take(i as int),
        decreases source@.len() - i,
    {
        target.push(source[i]);
        assert(source@.take(i + 1) == source@.take(i as int).push(source@[i as int]));
        i += 1;
    }
    assert(source@.take(i as int) == source@);
}

} // verus!

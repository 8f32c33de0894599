//! Stage identifiers in increasing order.

use crate::execution::StageId;
use std::collections::HashSet;
use vstd::prelude::*;
use vstd::std_specs::iter::IteratorSpec;

verus! {

broadcast use vstd::std_specs::hash::group_hash_axioms;

/// Whether every item of `list` is less than the next.
pub open spec fn is_increasing(list: Seq<StageId>) -> bool {
    forall|i: int, j: int| 0 <= i < j < list.len() ==> list[i] < list[j]
}

/// Whether `list` holds the members of `set`, each once, from the least to
/// the greatest.
pub open spec fn lists_in_order(list: Seq<StageId>, set: Set<StageId>) -> bool {
    &&& is_increasing(list)
    &&& forall|id: StageId| list.contains(id) <==> set.contains(id)
}

/// The members of a finite set from the least to the greatest.
pub open spec fn ascending(set: Set<StageId>) -> Seq<StageId> {
    choose|list: Seq<StageId>| lists_in_order(list, set)
}

/// There is one way only to list a set in order.
pub proof fn lemma_one_order(a: Seq<StageId>, b: Seq<StageId>, set: Set<StageId>)
    requires
        lists_in_order(a, set),
        lists_in_order(b, set),
    ensures
        a == b,
    decreases a.len(),
{
    if a.len() == 0 {
        if b.len() > 0 {
            assert(b.contains(b[0]));
            assert(a.contains(b[0]));
        }
        assert(a =~= b);
    } else {
        let m = a.last();
        assert(a.contains(m));
        assert(b.contains(m));
        let n = b.last();
        assert(b.contains(n));
        assert(a.contains(n));
        let i = choose|i: int| 0 <= i < a.len() && a[i] == n;
        let j = choose|j: int| 0 <= j < b.len() && b[j] == m;
        assert(m == n);
        let rest = set.remove(m);
        assert forall|id: StageId| a.drop_last().contains(id) <==> rest.contains(id) by {
            if a.drop_last().contains(id) {
                let k = choose|k: int| 0 <= k < a.len() - 1 && a.drop_last()[k] == id;
                assert(a[k] == id);
                assert(a.contains(id));
            }
            if rest.contains(id) {
                assert(a.contains(id));
                let k = choose|k: int| 0 <= k < a.len() && a[k] == id;
                assert(a.drop_last()[k] == id);
            }
        }
        assert forall|id: StageId| b.drop_last().contains(id) <==> rest.contains(id) by {
            if b.drop_last().contains(id) {
                let k = choose|k: int| 0 <= k < b.len() - 1 && b.drop_last()[k] == id;
                assert(b[k] == id);
                assert(b.contains(id));
            }
            if rest.contains(id) {
                assert(b.contains(id));
                let k = choose|k: int| 0 <= k < b.len() && b[k] == id;
                assert(b.drop_last()[k] == id);
            }
        }
        lemma_one_order(a.drop_last(), b.drop_last(), rest);
        assert(a =~= a.drop_last().push(m));
        assert(b =~= b.drop_last().push(n));
    }
}

/// The greatest member of `set` below `bound`, where there is a member
/// below `bound`.
proof fn lemma_greatest(set: Set<StageId>, bound: nat) -> (greatest: StageId)
    requires
        bound <= u32::MAX + 1,
        exists|id: StageId| set.contains(id) && id < bound,
    ensures
        set.contains(greatest),
        greatest < bound,
        forall|id: StageId| set.contains(id) && id < bound ==> id <= greatest,
    decreases bound,
{
    let last = (bound - 1) as StageId;
    if set.contains(last) {
        last
    } else {
        let id = choose|id: StageId| set.contains(id) && id < bound;
        assert(id < bound - 1);
        lemma_greatest(set, (bound - 1) as nat)
    }
}

/// A finite set can be listed in order.
pub proof fn lemma_ascending_lists(set: Set<StageId>)
    requires
        set.finite(),
    ensures
        lists_in_order(ascending(set), set),
    decreases set.len(),
{
    if set.len() == 0 {
        let none = Seq::<StageId>::empty();
        assert(set =~= Set::empty());
        assert(lists_in_order(none, set));
    } else {
        let some = set.choose();
        assert(set.contains(some));
        let greatest = lemma_greatest(set, (u32::MAX + 1) as nat);
        let rest = set.remove(greatest);
        lemma_ascending_lists(rest);
        let list = ascending(rest).push(greatest);
        assert forall|i: int, j: int| 0 <= i < j < list.len() implies list[i] < list[j] by {
            assert(ascending(rest).contains(list[i]));
            if j < list.len() - 1 {
                assert(list[i] == ascending(rest)[i] && list[j] == ascending(rest)[j]);
            }
        }
        assert forall|id: StageId| list.contains(id) <==> set.contains(id) by {
            if list.contains(id) {
                let k = choose|k: int| 0 <= k < list.len() && list[k] == id;
                if k < list.len() - 1 {
                    assert(ascending(rest).contains(list[k]));
                }
            }
            if set.contains(id) {
                if id == greatest {
                    assert(list[list.len() - 1] == id);
                } else {
                    assert(ascending(rest).contains(id));
                    let k = choose|k: int| 0 <= k < ascending(rest).len() && ascending(rest)[k] == id;
                    assert(list[k] == id);
                }
            }
        }
        assert(lists_in_order(list, set));
    }
}

/// A list that holds a set in order is the set in ascending order.
pub proof fn lemma_is_ascending(list: Seq<StageId>, set: Set<StageId>)
    requires
        lists_in_order(list, set),
    ensures
        list == ascending(set),
{
    lemma_one_order(list, ascending(set), set);
}

/// Puts `id` into `list` at its place in the order, unless it is there.
pub fn insert_in_order(list: &mut Vec<StageId>, id: StageId)
    requires
        is_increasing(old(list)@),
    ensures
        lists_in_order(final(list)@, old(list)@.to_set().insert(id)),
{
    let ghost before = list@;
    let mut i: usize = 0;
    while i < list.len() && list[i] < id
        invariant
            list@ == before,
            i <= list.len(),
            forall|j: int| 0 <= j < i ==> list@[j] < id,
        decreases list.len() - i,
    {
        i = i + 1;
    }
    if i < list.len() && list[i] == id {
        assert forall|x: StageId| list@.contains(x) <==> before.to_set().insert(id).contains(
            x,
        ) by {
            if x == id {
                assert(list@[i as int] == x);
            }
        }
        return ;
    }
    list.insert(i, id);
    proof {
        let after = list@;
        assert forall|a: int, b: int| 0 <= a < b < after.len() implies after[a] < after[b] by {
            if b < i {
                assert(after[a] == before[a] && after[b] == before[b]);
            } else if b == i {
                assert(after[a] == before[a]);
            } else if a < i {
                assert(after[a] == before[a] && after[b] == before[b - 1]);
                if i < b - 1 {
                    assert(before[i as int] < before[b - 1]);
                }
            } else if a == i {
                assert(after[b] == before[b - 1]);
                if i < b - 1 {
                    assert(before[i as int] < before[b - 1]);
                }
            } else {
                assert(after[a] == before[a - 1] && after[b] == before[b - 1]);
            }
        }
        assert forall|x: StageId| after.contains(x) <==> before.to_set().insert(id).contains(
            x,
        ) by {
            if after.contains(x) {
                let k = choose|k: int| 0 <= k < after.len() && after[k] == x;
                if k < i {
                    assert(before[k] == x);
                } else if k > i {
                    assert(before[k - 1] == x);
                }
            }
            if before.contains(x) {
                let k = choose|k: int| 0 <= k < before.len() && before[k] == x;
                if k < i {
                    assert(after[k] == x);
                } else {
                    assert(after[k + 1] == x);
                }
            }
            if x == id {
                assert(after[i as int] == x);
            }
        }
    }
}

/// The members of `set` from the least to the greatest.
pub fn members_in_order(set: &HashSet<StageId>) -> (r: Vec<StageId>)
    ensures
        r@ == ascending(set@),
        lists_in_order(r@, set@),
{
    let ghost keys = set.iter().remaining().unref();
    let mut r: Vec<StageId> = Vec::new();
    assert(keys.take(0).to_set() =~= Set::empty());
    for id in iter: set.iter()
        invariant
            keys == iter.seq().unref(),
            keys.to_set() == set@,
            lists_in_order(r@, keys.take(iter.index()).to_set()),
    {
        let ghost at = iter.index();
        insert_in_order(&mut r, *id);
        proof {
            assert(keys.take(at + 1) =~= keys.take(at).push(*id));
            keys.take(at).lemma_push_to_set_commute(*id);
            assert forall|x: StageId| r@.contains(x) <==> keys.take(at + 1).to_set().contains(
                x,
            ) by {
                assert(r@.to_set().contains(x) <==> r@.contains(x));
            }
        }
    }
    proof {
        assert(keys.take(keys.len() as int) =~= keys);
        lemma_is_ascending(r@, set@);
    }
    r
}

} // verus!

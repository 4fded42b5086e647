//! Stable sorting by a key.

use vstd::prelude::*;

verus! {

/// Number `i` comes before number `j` once sorted; equals keep their order.
pub open spec fn sorts_before(keys: Seq<(u64, u32)>, i: int, j: int) -> bool {
    ||| keys[i].0 < keys[j].0
    ||| keys[i].0 == keys[j].0 && keys[i].1 < keys[j].1
    ||| keys[i] == keys[j] && i < j
}

/// `order` lists every position once, the smallest key first.
pub open spec fn is_sorting(keys: Seq<(u64, u32)>, order: Seq<int>) -> bool {
    &&& order.len() == keys.len()
    &&& forall|a: int| 0 <= a < order.len() ==> 0 <= #[trigger] order[a] < keys.len()
    &&& forall|a: int, b: int|
        0 <= a < b < order.len() ==> sorts_before(keys, #[trigger] order[a], #[trigger] order[b])
    &&& forall|i: int| 0 <= i < keys.len() ==> order.contains(i)
}

/// The positions in the order of their keys.
pub fn sort(keys: &Vec<(u64, u32)>) -> (order: Vec<usize>)
    ensures
        is_sorting(keys@, order@.map_values(|i: usize| i as int)),
{
    let mut order: Vec<usize> = Vec::new();
    let mut i: usize = 0;
    while i < keys.len()
        invariant
            i <= keys.len(),
            order@.len() == i,
            forall|a: int| 0 <= a < i ==> #[trigger] order@[a] < i,
            forall|a: int, b: int|
                0 <= a < b < i ==> sorts_before(
                    keys@,
                    #[trigger] order@[a] as int,
                    #[trigger] order@[b] as int,
                ),
            forall|j: usize| 0 <= j < i ==> order@.contains(j),
        decreases keys.len() - i,
    {
        let key: (u64, u32) = keys[i];
        let mut at: usize = 0;
        while at < order.len() && (keys[order[at]].0 < key.0 || (keys[order[at]].0 == key.0
            && keys[order[at]].1 <= key.1))
            invariant
                at <= order.len(),
                i < keys.len(),
                order@.len() == i,
                key == keys@[i as int],
                forall|a: int| 0 <= a < i ==> #[trigger] order@[a] < i,
                forall|a: int|
                    0 <= a < at ==> sorts_before(keys@, #[trigger] order@[a] as int, i as int),
            decreases order.len() - at,
        {
            at += 1;
        }
        let ghost before = order@;
        order.insert(at, i);
        proof {
            assert forall|a: int, b: int| 0 <= a < b < i + 1 implies sorts_before(
                keys@,
                #[trigger] order@[a] as int,
                #[trigger] order@[b] as int,
            ) by {
                if b == at {
                    assert(order@[a] == before[a]);
                } else if a == at {
                    assert(order@[b] == before[b - 1]);
                    if b - 1 > at {
                        assert(sorts_before(keys@, before[at as int] as int, before[b - 1] as int));
                    }
                } else {
                    let a1 = if a < at { a } else { a - 1 };
                    let b1 = if b < at { b } else { b - 1 };
                    assert(sorts_before(keys@, before[a1] as int, before[b1] as int));
                }
            }
            assert forall|j: usize| 0 <= j < i + 1 implies order@.contains(j) by {
                if j == i {
                    assert(order@[at as int] == i);
                } else {
                    assert(before.contains(j));
                    let k = choose|k: int| 0 <= k < before.len() && before[k] == j;
                    assert(order@[if k < at { k } else { k + 1 }] == j);
                }
            }
        }
        i += 1;
    }
    proof {
        let view = order@.map_values(|i: usize| i as int);
        assert forall|j: int| 0 <= j < keys@.len() implies view.contains(j) by {
            assert(order@.contains(j as usize));
            let k = choose|k: int| 0 <= k < order@.len() && order@[k] == j as usize;
            assert(view[k] == j);
        }
    }
    order
}

} // verus!

//! Resolving a bone hierarchy: which bones hang from something already placed, and in what order.
use vstd::prelude::*;

verus! {

/// Bone `i` hangs from no other bone: its parent is negative or out of range.
pub open spec fn is_root(parents: Seq<i32>, i: int) -> bool {
    parents[i] < 0 || parents[i] >= parents.len()
}

/// Following parents from `i` for at most `fuel` steps meets a root or a bone placed beforehand.
pub open spec fn settles(parents: Seq<i32>, placed: Seq<bool>, i: int, fuel: nat) -> bool
    decreases fuel,
{
    placed[i] || is_root(parents, i) || (fuel > 0 && settles(
        parents,
        placed,
        parents[i] as int,
        (fuel - 1) as nat,
    ))
}

/// Bone `i` can be placed at all.
pub open spec fn settled(parents: Seq<i32>, placed: Seq<bool>, i: int) -> bool {
    exists|fuel: nat| settles(parents, placed, i, fuel)
}

/// Every bone can be placed: the hierarchy has no cycle that avoids the bones placed beforehand.
pub open spec fn all_settled(parents: Seq<i32>, placed: Seq<bool>) -> bool {
    forall|i: int| 0 <= i < parents.len() ==> settled(parents, placed, i)
}

/// `order` places bones one after another, each after the bone it hangs from.
pub open spec fn is_order(parents: Seq<i32>, placed: Seq<bool>, order: Seq<usize>) -> bool {
    &&& forall|k: int|
        0 <= k < order.len() ==> {
            &&& #[trigger] order[k] < parents.len()
            &&& !placed[order[k] as int]
            &&& {
                ||| is_root(parents, order[k] as int)
                ||| placed[parents[order[k] as int] as int]
                ||| exists|j: int| 0 <= j < k && order[j] == parents[order[k] as int]
            }
        }
    &&& forall|j: int, k: int| 0 <= j < k < order.len() ==> order[j] != order[k]
}

/// Bone `i` stands in `order`.
pub open spec fn listed(order: Seq<usize>, i: int) -> bool {
    exists|k: int| 0 <= k < order.len() && order[k] == i
}

/// How many flags are down.
pub open spec fn pending(done: Seq<bool>) -> nat
    decreases done.len(),
{
    if done.len() == 0 {
        0
    } else {
        pending(done.drop_last()) + if done.last() {
            0nat
        } else {
            1nat
        }
    }
}

proof fn lemma_raise(done: Seq<bool>, i: int)
    requires
        0 <= i < done.len(),
        !done[i],
    ensures
        pending(done.update(i, true)) + 1 == pending(done),
    decreases done.len(),
{
    let after = done.update(i, true);
    if i == done.len() - 1 {
        assert(after.drop_last() =~= done.drop_last());
    } else {
        assert(after.drop_last() =~= done.drop_last().update(i, true));
        lemma_raise(done.drop_last(), i);
    }
}

/// Nothing is pending among flags that are all up, everything among flags that are all down.
pub proof fn lemma_pending_extremes(done: Seq<bool>)
    ensures
        (forall|i: int| 0 <= i < done.len() ==> done[i]) ==> pending(done) == 0,
        (forall|i: int| 0 <= i < done.len() ==> !done[i]) ==> pending(done) == done.len(),
    decreases done.len(),
{
    if done.len() > 0 {
        lemma_pending_extremes(done.drop_last());
        assert(forall|i: int| 0 <= i < done.len() - 1 ==> done.drop_last()[i] == done[i]);
    }
}

/// Bone `k` is done, or waits for a bone that is not.
spec fn blocked(parents: Seq<i32>, placed: Seq<bool>, done: Seq<bool>, k: int) -> bool {
    !done[k] ==> !placed[k] && !is_root(parents, k) && !done[parents[k] as int]
}

/// A bone is unreachable when every bone it could hang from is unreachable too.
proof fn lemma_stuck(parents: Seq<i32>, placed: Seq<bool>, done: Seq<bool>, i: int, fuel: nat)
    requires
        0 <= i < parents.len(),
        done.len() == parents.len(),
        placed.len() == parents.len(),
        !done[i],
        forall|k: int| 0 <= k < parents.len() ==> blocked(parents, placed, done, k),
    ensures
        !settles(parents, placed, i, fuel),
    decreases fuel,
{
    assert(blocked(parents, placed, done, i));
    if fuel > 0 {
        lemma_stuck(parents, placed, done, parents[i] as int, (fuel - 1) as nat);
    }
}

/// The bones that can be placed, besides those placed beforehand, in an order that puts each
/// behind the bone it hangs from; and for every bone whether it is placed in the end.
pub fn settle(parents: &[i32], placed: &[bool]) -> (r: (Vec<usize>, Vec<bool>))
    requires
        placed@.len() == parents@.len(),
    ensures
        is_order(parents@, placed@, r.0@),
        r.0@.len() + pending(r.1@) == pending(placed@),
        r.1@.len() == parents@.len(),
        forall|i: int| 0 <= i < parents@.len() ==> (r.1@[i] <==> settled(parents@, placed@, i)),
        forall|i: int|
            0 <= i < parents@.len() ==> (#[trigger] r.1@[i] <==> placed@[i] || listed(r.0@, i)),
{
    let n: usize = parents.len();
    let mut done: Vec<bool> = Vec::new();
    let mut j: usize = 0;
    while j < n
        invariant
            j <= n,
            n == parents@.len(),
            placed@.len() == n,
            done@ == placed@.take(j as int),
        decreases n - j,
    {
        done.push(placed[j]);
        j += 1;
        assert(placed@.take(j as int) =~= placed@.take(j - 1).push(placed@[j - 1]));
    }
    assert(done@ =~= placed@);
    proof {
        assert forall|i: int| 0 <= i < n && done@[i] implies settled(parents@, placed@, i) by {
            assert(settles(parents@, placed@, i, 0));
        }
    }
    let mut order: Vec<usize> = Vec::new();
    let mut progress: bool = true;
    while progress
        invariant
            n == parents@.len(),
            placed@.len() == n,
            done@.len() == n,
            is_order(parents@, placed@, order@),
            order@.len() + pending(done@) == pending(placed@),
            forall|i: int| 0 <= i < n && #[trigger] done@[i] ==> settled(parents@, placed@, i),
            forall|i: int|
                0 <= i < n ==> (#[trigger] done@[i] <==> placed@[i] || listed(order@, i)),
            !progress ==> forall|k: int| 0 <= k < n ==> blocked(parents@, placed@, done@, k),
        decreases pending(done@), (if progress { 1int } else { 0int }),
    {
        progress = false;
        let ghost before = pending(done@);
        let mut i: usize = 0;
        while i < n
            invariant
                i <= n,
                n == parents@.len(),
                placed@.len() == n,
                done@.len() == n,
                is_order(parents@, placed@, order@),
                order@.len() + pending(done@) == pending(placed@),
                forall|k: int| 0 <= k < n && #[trigger] done@[k] ==> settled(parents@, placed@, k),
                forall|k: int|
                    0 <= k < n ==> (#[trigger] done@[k] <==> placed@[k] || listed(order@, k)),
                !progress ==> pending(done@) == before && forall|k: int|
                    0 <= k < i ==> blocked(parents@, placed@, done@, k),
                progress ==> pending(done@) < before,
            decreases n - i,
        {
            if !done[i] {
                let p: i32 = parents[i];
                let free: bool = if p < 0 || p as usize >= n {
                    true
                } else {
                    done[p as usize]
                };
                if free {
                    proof {
                        lemma_raise(done@, i as int);
                        if is_root(parents@, i as int) {
                            assert(settles(parents@, placed@, i as int, 0));
                        } else {
                            let fuel = choose|fuel: nat| settles(parents@, placed@, p as int, fuel);
                            assert(settles(parents@, placed@, i as int, fuel + 1));
                        }
                    }
                    let ghost was_done = done@;
                    let ghost was_order = order@;
                    done.set(i, true);
                    order.push(i);
                    progress = true;
                    proof {
                        assert forall|k: int| 0 <= k < n implies (#[trigger] done@[k] <==> placed@[k]
                            || listed(order@, k)) by {
                            if k == i {
                                assert(order@[was_order.len() as int] == k);
                            } else {
                                assert(done@[k] == was_done[k]);
                                if was_done[k] && !placed@[k] {
                                    let m = choose|m: int|
                                        0 <= m < was_order.len() && was_order[m] == k;
                                    assert(order@[m] == k);
                                }
                                if listed(order@, k) {
                                    let m = choose|m: int| 0 <= m < order@.len() && order@[m] == k;
                                    assert(was_order[m] == k);
                                }
                            }
                        }
                        assert(is_order(parents@, placed@, order@)) by {
                            assert forall|k: int| 0 <= k < order@.len() implies {
                                &&& #[trigger] order@[k] < parents@.len()
                                &&& !placed@[order@[k] as int]
                                &&& {
                                    ||| is_root(parents@, order@[k] as int)
                                    ||| placed@[parents@[order@[k] as int] as int]
                                    ||| exists|j: int|
                                        0 <= j < k && order@[j] == parents@[order@[k] as int]
                                }
                            } by {
                                if k < was_order.len() {
                                    assert(order@[k] == was_order[k]);
                                    if !is_root(parents@, order@[k] as int)
                                        && !placed@[parents@[order@[k] as int] as int] {
                                        let j = choose|j: int|
                                            0 <= j < k && was_order[j] == parents@[was_order[k] as int];
                                        assert(order@[j] == parents@[order@[k] as int]);
                                    }
                                } else {
                                    assert(!placed@[i as int]);
                                    if !is_root(parents@, i as int) && !placed@[p as int] {
                                        assert(was_done[p as int]);
                                        let j = choose|j: int|
                                            0 <= j < was_order.len() && was_order[j] == p;
                                        assert(order@[j] == p);
                                    }
                                }
                            }
                            assert forall|j: int, k: int| 0 <= j < k < order@.len() implies order@[j]
                                != order@[k] by {
                                if k == was_order.len() {
                                    assert(order@[j] == was_order[j]);
                                    assert(!was_done[i as int]);
                                }
                            }
                        }
                    }
                }
            }
            i += 1;
        }
    }
    proof {
        assert forall|i: int| 0 <= i < n implies (done@[i] <==> settled(parents@, placed@, i)) by {
            if !done@[i] && settled(parents@, placed@, i) {
                let fuel = choose|fuel: nat| settles(parents@, placed@, i, fuel);
                lemma_stuck(parents@, placed@, done@, i, fuel);
            }
        }
    }
    (order, done)
}

/// A bone can be placed exactly where it was placed beforehand, hangs from nothing, or hangs from a
/// bone that can be placed.
pub proof fn law_a_bone_settles_with_its_parent(parents: Seq<i32>, placed: Seq<bool>, i: int)
    requires
        0 <= i < parents.len(),
        placed.len() == parents.len(),
    ensures
        settled(parents, placed, i) <==> placed[i] || parents[i] < 0 || parents[i] >= parents.len()
            || settled(parents, placed, parents[i] as int),
{
    if settled(parents, placed, i) && !placed[i] && !is_root(parents, i) {
        let fuel = choose|fuel: nat| settles(parents, placed, i, fuel);
        assert(settles(parents, placed, parents[i] as int, (fuel - 1) as nat));
    }
    if placed[i] || is_root(parents, i) {
        assert(settles(parents, placed, i, 0));
    } else if settled(parents, placed, parents[i] as int) {
        let fuel = choose|fuel: nat| settles(parents, placed, parents[i] as int, fuel);
        assert(settles(parents, placed, i, fuel + 1));
    }
}

/// No bone of a cycle can be placed: where every bone of a set hangs from another of the set, and none
/// was placed beforehand, none ever is.
pub proof fn law_a_cycle_never_settles(
    parents: Seq<i32>,
    placed: Seq<bool>,
    cycle: Set<int>,
    i: int,
)
    requires
        forall|k: int| #[trigger]
            cycle.contains(k) ==> 0 <= k < parents.len() && !placed[k] && cycle.contains(
                parents[k] as int,
            ),
        cycle.contains(i),
    ensures
        !settled(parents, placed, i),
{
    assert forall|fuel: nat| !settles(parents, placed, i, fuel) by {
        lemma_cycle(parents, placed, cycle, i, fuel);
    }
}

proof fn lemma_cycle(parents: Seq<i32>, placed: Seq<bool>, cycle: Set<int>, i: int, fuel: nat)
    requires
        forall|k: int| #[trigger]
            cycle.contains(k) ==> 0 <= k < parents.len() && !placed[k] && cycle.contains(
                parents[k] as int,
            ),
        cycle.contains(i),
    ensures
        !settles(parents, placed, i, fuel),
    decreases fuel,
{
    assert(cycle.contains(parents[i] as int));
    if fuel > 0 {
        lemma_cycle(parents, placed, cycle, parents[i] as int, (fuel - 1) as nat);
    }
}

/// In the order in which bones are placed, each comes once, and behind the bone that it hangs from,
/// unless that was placed beforehand or there is none.
pub proof fn law_each_bone_comes_behind_its_parent(
    parents: Seq<i32>,
    placed: Seq<bool>,
    order: Seq<usize>,
    k: int,
)
    requires
        is_order(parents, placed, order),
        0 <= k < order.len(),
    ensures
        order[k] < parents.len(),
        !placed[order[k] as int],
        forall|j: int| 0 <= j < order.len() && j != k ==> #[trigger] order[j] != order[k],
        ({
            let p = parents[order[k] as int];
            0 <= p < parents.len() && !placed[p as int] ==> exists|j: int|
                0 <= j < k && #[trigger] order[j] == p
        }),
{
    assert(order[k] < parents.len());
    assert forall|j: int| 0 <= j < order.len() && j != k implies #[trigger] order[j] != order[k] by {
        if j < k {
            assert(order[j] != order[k]);
        } else {
            assert(order[k] != order[j]);
        }
    }
}

} // verus!

//! Ascending selections of nodes, and the clusters that a labelling makes of them.

use vstd::prelude::*;

use crate::digraph::{ints, rows};
use crate::union_find::{rooted, UnionFind};

verus! {

/// The nodes below `k` that satisfy `keep`, ascending.
pub open spec fn select(keep: spec_fn(int) -> bool, k: int) -> Seq<int>
    decreases k,
{
    if k <= 0 {
        Seq::empty()
    } else if keep(k - 1) {
        select(keep, k - 1).push(k - 1)
    } else {
        select(keep, k - 1)
    }
}

/// A selection is ascending and holds exactly the nodes asked for.
pub proof fn lemma_select(keep: spec_fn(int) -> bool, k: int)
    ensures
        forall|i: int, j: int|
            0 <= i < j < select(keep, k).len() ==> select(keep, k)[i] < select(keep, k)[j],
        forall|v: int| #[trigger] select(keep, k).contains(v) <==> 0 <= v < k && keep(v),
    decreases k,
{
    if k > 0 {
        lemma_select(keep, k - 1);
        let before = select(keep, k - 1);
        let now = select(keep, k);
        assert forall|i: int| 0 <= i < before.len() implies #[trigger] before[i] < k - 1 by {
            assert(before.contains(before[i]));
        }
        assert forall|v: int| #[trigger] now.contains(v) <==> 0 <= v < k && keep(v) by {
            if now.contains(v) {
                let i = choose|i: int| 0 <= i < now.len() && now[i] == v;
                if i < before.len() {
                    assert(before.contains(before[i]));
                }
            }
            if 0 <= v < k && keep(v) {
                if v < k - 1 {
                    assert(before.contains(v));
                    let i = choose|i: int| 0 <= i < before.len() && before[i] == v;
                    assert(now[i] == v);
                } else {
                    assert(now[before.len() as int] == v);
                }
            }
        }
    }
}

/// `v` is the least supported node of its class.
pub open spec fn leads(supported: Seq<bool>, labels: Seq<int>, v: int) -> bool {
    supported[v] && forall|u: int| 0 <= u < v && #[trigger] supported[u] ==> labels[u] != labels[v]
}

/// The leaders of the classes that have a supported node below `k`.
pub open spec fn leaders(supported: Seq<bool>, labels: Seq<int>, k: int) -> Seq<int> {
    select(|v: int| leads(supported, labels, v), k)
}

/// The supported nodes below `k` that carry `label`.
pub open spec fn members(supported: Seq<bool>, labels: Seq<int>, label: int, k: int) -> Seq<int> {
    select(|v: int| supported[v] && labels[v] == label, k)
}

/// The supported nodes below `k`, one ascending cluster for each class, in the order of the
/// clusters' first nodes.
pub open spec fn groups_below(supported: Seq<bool>, labels: Seq<int>, k: int) -> Seq<Seq<int>> {
    Seq::new(
        leaders(supported, labels, k).len(),
        |c: int| members(supported, labels, labels[leaders(supported, labels, k)[c]], k),
    )
}

/// The supported nodes, one cluster for each class.
pub open spec fn groups(supported: Seq<bool>, labels: Seq<int>) -> Seq<Seq<int>> {
    groups_below(supported, labels, labels.len() as int)
}

/// Collects the supported nodes of every class.
pub fn group_classes(supported: &[bool], classes: &mut UnionFind) -> (clusters: Vec<Vec<usize>>)
    requires
        old(classes).wf(),
        supported@.len() == old(classes)@.len(),
    ensures
        final(classes).wf(),
        final(classes)@ == old(classes)@,
        rows(clusters@) == groups(supported@, old(classes)@),
{
    let n: usize = supported.len();
    let ghost labels = classes@;
    let mut clusters: Vec<Vec<usize>> = Vec::new();
    let mut slots: Vec<Option<usize>> = Vec::new();
    proof {
        classes.lemma_rooted();
    }
    while slots.len() < n
        invariant
            slots@.len() <= n,
            forall|r: int| 0 <= r < slots@.len() ==> #[trigger] slots@[r] is None,
        decreases n - slots@.len(),
    {
        slots.push(None);
    }
    let mut node: usize = 0;
    proof {
        assert(rows(clusters@) =~= groups_below(supported@, labels, 0));
    }
    while node < n
        invariant
            node <= n,
            n == supported@.len(),
            n == slots@.len(),
            n == labels.len(),
            classes.wf(),
            classes@ == labels,
            rooted(labels),
            rows(clusters@) == groups_below(supported@, labels, node as int),
            forall|r: int|
                0 <= r < n ==> match #[trigger] slots@[r] {
                    Some(c) => c < clusters@.len() && labels[leaders(
                        supported@,
                        labels,
                        node as int,
                    )[c as int]] == r,
                    None => forall|u: int|
                        0 <= u < node && #[trigger] supported@[u] ==> labels[u] != r,
                },
        decreases n - node,
    {
        let ghost k = node as int;
        let ghost before = leaders(supported@, labels, k);
        let ghost held = clusters@;
        proof {
            lemma_select(|v: int| leads(supported@, labels, v), k);
            assert(rows(held).len() == before.len());
        }
        if supported[node] {
            let root: usize = classes.find(node);
            match slots[root] {
                Some(slot) => {
                    proof {
                        let first = before[slot as int];
                        assert(before.contains(first));
                        assert(supported@[first]);
                        assert(!leads(supported@, labels, k));
                    }
                    clusters[slot].push(node);
                    proof {
                        assert(leaders(supported@, labels, k + 1) == before);
                        assert forall|c: int| 0 <= c < held.len() implies #[trigger] rows(
                            clusters@,
                        )[c] == members(supported@, labels, labels[before[c]], k + 1) by {
                            assert(rows(held)[c] == members(
                                supported@,
                                labels,
                                labels[before[c]],
                                k,
                            ));
                            if c == slot {
                                assert(ints(clusters@[c]@) =~= ints(held[c]@).push(k));
                            } else {
                                lemma_leaders_distinct(supported@, labels, k, c, slot as int);
                            }
                        }
                        assert(rows(clusters@) =~= groups_below(supported@, labels, k + 1));
                    }
                },
                None => {
                    let slot: usize = clusters.len();
                    let mut fresh: Vec<usize> = Vec::new();
                    fresh.push(node);
                    clusters.push(fresh);
                    slots.set(root, Some(slot));
                    proof {
                        assert(leads(supported@, labels, k));
                        let now = leaders(supported@, labels, k + 1);
                        assert(now == before.push(k));
                        assert forall|c: int| 0 <= c < now.len() implies #[trigger] rows(
                            clusters@,
                        )[c] == members(supported@, labels, labels[now[c]], k + 1) by {
                            if c < held.len() {
                                assert(rows(held)[c] == members(
                                    supported@,
                                    labels,
                                    labels[before[c]],
                                    k,
                                ));
                                assert(before.contains(before[c]));
                                assert(supported@[before[c]]);
                            } else {
                                lemma_select(
                                    |v: int| supported@[v] && labels[v] == labels[k],
                                    k,
                                );
                                let none = members(supported@, labels, labels[k], k);
                                assert(none.len() == 0) by {
                                    if none.len() > 0 {
                                        assert(none.contains(none[0]));
                                        assert(supported@[none[0]]);
                                    }
                                }
                                assert(ints(clusters@[c]@) =~= none.push(k));
                            }
                        }
                        assert(rows(clusters@) =~= groups_below(supported@, labels, k + 1));
                    }
                },
            }
        } else {
            proof {
                assert(leaders(supported@, labels, k + 1) == before);
                assert(groups_below(supported@, labels, k + 1) =~= groups_below(
                    supported@,
                    labels,
                    k,
                ));
            }
        }
        node = node + 1;
    }
    clusters
}

proof fn lemma_leaders_distinct(supported: Seq<bool>, labels: Seq<int>, k: int, c: int, d: int)
    requires
        0 <= c < leaders(supported, labels, k).len(),
        0 <= d < leaders(supported, labels, k).len(),
        c != d,
    ensures
        labels[leaders(supported, labels, k)[c]] != labels[leaders(supported, labels, k)[d]],
{
    let all = leaders(supported, labels, k);
    lemma_select(|v: int| leads(supported, labels, v), k);
    assert(all.contains(all[c]) && all.contains(all[d]));
    if c < d {
        assert(supported[all[c]]);
    } else {
        assert(supported[all[d]]);
    }
}

} // verus!

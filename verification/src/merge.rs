//! Greedy merging of node classes along edges, as long as the joined class stays convex.

use vstd::prelude::*;

use crate::bitset::{
    bit_empty, bit_intersects, bit_or_into, bit_set, bit_test, bit_width, has_bit, word_count,
};
use crate::union_find::{relabel, rooted, UnionFind};

verus! {

/// The nodes labelled `label`.
pub open spec fn class_of(labels: Seq<int>, label: int) -> Set<int> {
    Set::new(|v: int| 0 <= v < labels.len() && labels[v] == label)
}

/// `w` can be reached from the group.
pub open spec fn below(reach: Set<(int, int)>, group: Set<int>, w: int) -> bool {
    exists|a: int| #[trigger] group.contains(a) && reach.contains((a, w))
}

/// `w` reaches the group.
pub open spec fn above(reach: Set<(int, int)>, group: Set<int>, w: int) -> bool {
    exists|b: int| #[trigger] group.contains(b) && reach.contains((w, b))
}

/// No node outside the group lies between two of its members.
pub open spec fn convex(reach: Set<(int, int)>, group: Set<int>) -> bool {
    forall|w: int| #[trigger] below(reach, group, w) && above(reach, group, w) ==> group.contains(w)
}

/// One attempt: joins the classes of an edge's ends if the union is convex.
pub open spec fn merge_step(
    reach: Set<(int, int)>,
    labels: Seq<int>,
    edge: (int, int),
) -> Seq<int> {
    let left = labels[edge.0];
    let right = labels[edge.1];
    if left != right && convex(reach, class_of(labels, left).union(class_of(labels, right))) {
        relabel(labels, left, right)
    } else {
        labels
    }
}

/// One attempt for each edge in turn.
pub open spec fn merge_pass(
    reach: Set<(int, int)>,
    labels: Seq<int>,
    edges: Seq<(int, int)>,
) -> Seq<int>
    decreases edges.len(),
{
    if edges.len() == 0 {
        labels
    } else {
        merge_step(reach, merge_pass(reach, labels, edges.drop_last()), edges.last())
    }
}

/// Passes until one changes nothing.
pub open spec fn merge_fix(
    reach: Set<(int, int)>,
    labels: Seq<int>,
    edges: Seq<(int, int)>,
) -> Seq<int>
    decreases labels.to_set().len(),
    when edges_within(edges, labels.len() as int)
{
    proof {
        lemma_pass_shrinks(reach, labels, edges);
    }
    let next = merge_pass(reach, labels, edges);
    if next == labels {
        labels
    } else {
        merge_fix(reach, next, edges)
    }
}

/// The ends of every edge are nodes.
pub open spec fn edges_within(edges: Seq<(int, int)>, n: int) -> bool {
    forall|i: int|
        0 <= i < edges.len() ==> 0 <= (#[trigger] edges[i]).0 < n && 0 <= edges[i].1 < n
}

proof fn lemma_relabel_shrinks(labels: Seq<int>, a: int, b: int)
    requires
        0 <= a < labels.len(),
        0 <= b < labels.len(),
        labels[a] != labels[b],
    ensures
        relabel(labels, labels[a], labels[b]).to_set().len() < labels.to_set().len(),
{
    let left = labels[a];
    let right = labels[b];
    let next = relabel(labels, left, right);
    vstd::seq_lib::seq_to_set_is_finite(labels);
    assert(labels.to_set().contains(right));
    assert(labels.contains(left));
    assert(next.to_set().subset_of(labels.to_set().remove(right))) by {
        assert forall|x: int| next.to_set().contains(x) implies labels.to_set().remove(
            right,
        ).contains(x) by {
            let v = choose|v: int| 0 <= v < next.len() && next[v] == x;
            assert(labels.contains(labels[v]));
        }
    }
    vstd::set_lib::lemma_len_subset(next.to_set(), labels.to_set().remove(right));
}

/// A pass keeps the nodes, and either changes nothing or leaves fewer classes.
pub proof fn lemma_pass_shrinks(reach: Set<(int, int)>, labels: Seq<int>, edges: Seq<(int, int)>)
    requires
        edges_within(edges, labels.len() as int),
    ensures
        merge_pass(reach, labels, edges).len() == labels.len(),
        merge_pass(reach, labels, edges) == labels || merge_pass(
            reach,
            labels,
            edges,
        ).to_set().len() < labels.to_set().len(),
    decreases edges.len(),
{
    if edges.len() > 0 {
        let front = edges.drop_last();
        assert forall|i: int| 0 <= i < front.len() implies 0 <= (#[trigger] front[i]).0
            < labels.len() && 0 <= front[i].1 < labels.len() by {
            assert(front[i] == edges[i]);
        }
        lemma_pass_shrinks(reach, labels, front);
        let middle = merge_pass(reach, labels, front);
        let last = edges.last();
        assert(edges[edges.len() - 1] == last);
        if merge_step(reach, middle, last) != middle {
            lemma_relabel_shrinks(middle, last.0, last.1);
        }
    }
}

/// The relation stored in bit rows.
pub open spec fn bits_relation(rows: Seq<Vec<u64>>) -> Set<(int, int)> {
    Set::new(
        |e: (int, int)| 0 <= e.0 < rows.len() && 0 <= e.1 < rows.len() && has_bit(rows[e.0]@, e.1),
    )
}

/// Rows wide enough for `n` nodes, with no bit beyond them.
pub open spec fn square(rows: Seq<Vec<u64>>) -> bool {
    &&& forall|a: int|
        0 <= a < rows.len() ==> (#[trigger] rows[a])@.len() == word_count(rows.len() as int)
    &&& forall|a: int, b: int|
        0 <= a < rows.len() && 0 <= b < bit_width(rows.len() as int) && #[trigger] has_bit(
            rows[a]@,
            b,
        ) ==> b < rows.len()
}

pub open spec fn pair_ints(edges: Seq<(usize, usize)>) -> Seq<(int, int)> {
    Seq::new(edges.len(), |i: int| (edges[i].0 as int, edges[i].1 as int))
}

/// A row that stores exactly the members of `group`.
pub open spec fn stores(row: Seq<u64>, n: int, group: Set<int>) -> bool {
    &&& row.len() == word_count(n)
    &&& forall|w: int| 0 <= w < bit_width(n) ==> (#[trigger] has_bit(row, w) <==> group.contains(w))
    &&& forall|w: int| #[trigger] group.contains(w) ==> 0 <= w < n
}

/// Everything reachable from the group.
pub open spec fn downstream(reach: Set<(int, int)>, group: Set<int>) -> Set<int> {
    Set::new(|w: int| below(reach, group, w))
}

fn is_convex(reach: &Vec<Vec<u64>>, cluster: &Vec<u64>, cluster_reach: &Vec<u64>, Ghost(group): Ghost<Set<int>>) -> (holds: bool)
    requires
        square(reach@),
        stores(cluster@, reach@.len() as int, group),
        stores(
            cluster_reach@,
            reach@.len() as int,
            downstream(bits_relation(reach@), group),
        ),
    ensures
        holds == convex(bits_relation(reach@), group),
{
    let ghost relation = bits_relation(reach@);
    let n: usize = reach.len();
    let mut node: usize = 0;
    while node < n
        invariant
            node <= n,
            n == reach@.len(),
            square(reach@),
            relation == bits_relation(reach@),
            stores(cluster@, n as int, group),
            stores(cluster_reach@, n as int, downstream(relation, group)),
            forall|w: int|
                0 <= w < node && #[trigger] below(relation, group, w) && above(relation, group, w)
                    ==> group.contains(w),
        decreases n - node,
    {
        let member: bool = bit_test(cluster, node);
        if !member && bit_test(cluster_reach, node) {
            let ghost w = node as int;
            assert(downstream(relation, group).contains(w));
            if bit_intersects(&reach[node], cluster) {
                proof {
                    let i = choose|i: int|
                        0 <= i < 64 * reach@[w]@.len() && #[trigger] has_bit(reach@[w]@, i)
                            && has_bit(cluster@, i);
                    assert(group.contains(i));
                    assert(relation.contains((w, i)));
                    assert(above(relation, group, w));
                    assert(!group.contains(w));
                    assert(below(relation, group, w));
                }
                return false;
            }
            proof {
                if above(relation, group, w) {
                    let b = choose|b: int| #[trigger]
                        group.contains(b) && relation.contains((w, b));
                    assert(has_bit(cluster@, b));
                    assert(has_bit(reach@[w]@, b));
                }
            }
        }
        proof {
            let w = node as int;
            if below(relation, group, w) {
                assert(downstream(relation, group).contains(w));
            }
        }
        node = node + 1;
    }
    proof {
        assert forall|w: int| #[trigger] below(relation, group, w) && above(relation, group, w) implies group.contains(w) by {
            let a = choose|a: int| #[trigger] group.contains(a) && relation.contains((a, w));
            assert(0 <= w < n);
        }
    }
    true
}

/// Each root's rows describe its class.
spec fn tracks(
    labels: Seq<int>,
    cluster_bits: Seq<Vec<u64>>,
    reach_bits: Seq<Vec<u64>>,
    relation: Set<(int, int)>,
) -> bool {
    &&& cluster_bits.len() == labels.len()
    &&& reach_bits.len() == labels.len()
    &&& forall|r: int|
        0 <= r < labels.len() && #[trigger] labels[r] == r ==> stores(
            cluster_bits[r]@,
            labels.len() as int,
            class_of(labels, r),
        ) && stores(
            reach_bits[r]@,
            labels.len() as int,
            downstream(relation, class_of(labels, r)),
        )
}

fn joined(left: &Vec<u64>, right: &Vec<u64>, n: usize, Ghost(a): Ghost<Set<int>>, Ghost(b): Ghost<Set<int>>) -> (row: Vec<u64>)
    requires
        stores(left@, n as int, a),
        stores(right@, n as int, b),
    ensures
        stores(row@, n as int, a.union(b)),
{
    let mut row: Vec<u64> = left.clone();
    proof {
        assert(row@ =~= left@);
    }
    bit_or_into(&mut row, right);
    row
}

/// Merges singleton classes along `edges` until no edge can be merged any more.
pub fn merge_classes(reach: &Vec<Vec<u64>>, edges: &Vec<(usize, usize)>) -> (classes: UnionFind)
    requires
        square(reach@),
        edges_within(pair_ints(edges@), reach@.len() as int),
    ensures
        classes.wf(),
        classes@ == merge_fix(
            bits_relation(reach@),
            Seq::new(reach@.len(), |v: int| v),
            pair_ints(edges@),
        ),
        classes@.len() == reach@.len(),
{
    let n: usize = reach.len();
    let ghost relation = bits_relation(reach@);
    let ghost single = Seq::new(reach@.len(), |v: int| v);
    let ghost pairs = pair_ints(edges@);
    let mut classes = UnionFind::new(n);
    let mut cluster_bits: Vec<Vec<u64>> = Vec::new();
    let mut reach_bits: Vec<Vec<u64>> = Vec::new();
    let mut index: usize = 0;
    while index < n
        invariant
            index <= n,
            n == reach@.len(),
            square(reach@),
            relation == bits_relation(reach@),
            single == Seq::new(reach@.len(), |v: int| v),
            cluster_bits@.len() == index,
            reach_bits@.len() == index,
            forall|r: int|
                0 <= r < index ==> stores(
                    (#[trigger] cluster_bits@[r])@,
                    n as int,
                    class_of(single, r),
                ),
            forall|r: int|
                0 <= r < index ==> stores(
                    (#[trigger] reach_bits@[r])@,
                    n as int,
                    downstream(relation, class_of(single, r)),
                ),
        decreases n - index,
    {
        let mut own: Vec<u64> = bit_empty(n);
        bit_set(&mut own, index);
        let row: Vec<u64> = reach[index].clone();
        proof {
            let r = index as int;
            assert(row@ =~= reach@[r]@);
            let group = class_of(single, r);
            assert forall|w: int| 0 <= w < bit_width(n as int) implies (#[trigger] has_bit(row@, w)
                <==> downstream(relation, group).contains(w)) by {
                if has_bit(row@, w) {
                    assert(has_bit(reach@[r]@, w));
                    assert(group.contains(r) && relation.contains((r, w)));
                }
                if below(relation, group, w) {
                    let a = choose|a: int| #[trigger]
                        group.contains(a) && relation.contains((a, w));
                    assert(a == r);
                }
            }
        }
        cluster_bits.push(own);
        reach_bits.push(row);
        index = index + 1;
    }
    let mut changed: bool = true;
    while changed
        invariant
            n == reach@.len(),
            square(reach@),
            relation == bits_relation(reach@),
            pairs == pair_ints(edges@),
            edges_within(pairs, n as int),
            classes.wf(),
            classes@.len() == n,
            tracks(classes@, cluster_bits@, reach_bits@, relation),
            merge_fix(relation, single, pairs) == (if changed {
                merge_fix(relation, classes@, pairs)
            } else {
                classes@
            }),
        decreases classes@.to_set().len(), changed as int,
    {
        let ghost start = classes@;
        changed = false;
        let mut at: usize = 0;
        proof {
            assert(pairs.take(0) =~= Seq::<(int, int)>::empty());
        }
        while at < edges.len()
            invariant
                at <= edges@.len(),
                n == reach@.len(),
                square(reach@),
                relation == bits_relation(reach@),
                pairs == pair_ints(edges@),
                edges_within(pairs, n as int),
                start.len() == n,
                classes.wf(),
                classes@.len() == n,
                tracks(classes@, cluster_bits@, reach_bits@, relation),
                classes@ == merge_pass(relation, start, pairs.take(at as int)),
                !changed ==> classes@ == start,
                changed ==> classes@.to_set().len() < start.to_set().len(),
            decreases edges@.len() - at,
        {
            let left: usize = edges[at].0;
            let right: usize = edges[at].1;
            let ghost labels = classes@;
            let ghost edge = (left as int, right as int);
            proof {
                assert(pairs[at as int] == edge);
                assert(pairs.take(at + 1) =~= pairs.take(at as int).push(edge));
                assert(pairs.take(at + 1).drop_last() =~= pairs.take(at as int));
                assert(merge_pass(relation, start, pairs.take(at + 1)) == merge_step(
                    relation,
                    labels,
                    edge,
                ));
                classes.lemma_rooted();
            }
            let left_root: usize = classes.find(left);
            let right_root: usize = classes.find(right);
            if left_root != right_root {
                let ghost a = class_of(labels, left_root as int);
                let ghost b = class_of(labels, right_root as int);
                let merged: Vec<u64> = joined(
                    &cluster_bits[left_root],
                    &cluster_bits[right_root],
                    n,
                    Ghost(a),
                    Ghost(b),
                );
                let merged_reach: Vec<u64> = joined(
                    &reach_bits[left_root],
                    &reach_bits[right_root],
                    n,
                    Ghost(downstream(relation, a)),
                    Ghost(downstream(relation, b)),
                );
                proof {
                    lemma_downstream_union(relation, a, b);
                }
                if is_convex(reach, &merged, &merged_reach, Ghost(a.union(b))) {
                    classes.union(left_root, right_root);
                    cluster_bits.set(left_root, merged);
                    reach_bits.set(left_root, merged_reach);
                    changed = true;
                    proof {
                        lemma_relabel_shrinks(labels, left as int, right as int);
                        lemma_tracks_union(labels, left_root as int, right_root as int);
                    }
                }
            }
            at = at + 1;
        }
        proof {
            assert(pairs.take(at as int) =~= pairs);
        }
    }
    classes
}

proof fn lemma_downstream_union(relation: Set<(int, int)>, a: Set<int>, b: Set<int>)
    ensures
        downstream(relation, a).union(downstream(relation, b)) == downstream(relation, a.union(b)),
{
    let both = a.union(b);
    assert forall|w: int|
        downstream(relation, both).contains(w) implies downstream(relation, a).union(
        downstream(relation, b),
    ).contains(w) by {
        let x = choose|x: int| #[trigger] both.contains(x) && relation.contains((x, w));
        assert(a.contains(x) || b.contains(x));
    }
    assert forall|w: int|
        downstream(relation, a).union(downstream(relation, b)).contains(w) implies downstream(
        relation,
        both,
    ).contains(w) by {
        if below(relation, a, w) {
            let x = choose|x: int| #[trigger] a.contains(x) && relation.contains((x, w));
            assert(both.contains(x));
        } else {
            let x = choose|x: int| #[trigger] b.contains(x) && relation.contains((x, w));
            assert(both.contains(x));
        }
    }
    assert(downstream(relation, a).union(downstream(relation, b)) =~= downstream(relation, both));
}

proof fn lemma_tracks_union(labels: Seq<int>, left: int, right: int)
    requires
        rooted(labels),
        0 <= left < labels.len(),
        0 <= right < labels.len(),
        left != right,
        labels[left] == left,
        labels[right] == right,
    ensures
        class_of(relabel(labels, left, right), left) == class_of(labels, left).union(
            class_of(labels, right),
        ),
        forall|r: int|
            r != left && r != right ==> #[trigger] class_of(relabel(labels, left, right), r)
                == class_of(labels, r),
        relabel(labels, left, right)[right] != right,
{
    let next = relabel(labels, left, right);
    assert(class_of(next, left) =~= class_of(labels, left).union(class_of(labels, right)));
    assert forall|r: int| r != left && r != right implies #[trigger] class_of(next, r) == class_of(
        labels,
        r,
    ) by {
        assert(class_of(next, r) =~= class_of(labels, r));
    }
}

} // verus!

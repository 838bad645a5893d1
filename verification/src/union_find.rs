//! Disjoint classes with path halving.

use vstd::prelude::*;

verus! {

/// A forest over `0..n` whose trees are the classes; the root of a tree is its class's label.
pub struct UnionFind {
    parent: Vec<usize>,
    label: Ghost<Seq<int>>,
    height: Ghost<Seq<int>>,
}

impl View for UnionFind {
    type V = Seq<int>;

    /// The label of every node.
    closed spec fn view(&self) -> Seq<int> {
        self.label@
    }
}

/// `labels` with class `right` renamed to `left`.
pub open spec fn relabel(labels: Seq<int>, left: int, right: int) -> Seq<int> {
    Seq::new(
        labels.len(),
        |v: int|
            if labels[v] == right {
                left
            } else {
                labels[v]
            },
    )
}

/// Labels are nodes that carry their own name.
pub open spec fn rooted(labels: Seq<int>) -> bool {
    forall|v: int|
        0 <= v < labels.len() ==> 0 <= #[trigger] labels[v] < labels.len() && labels[labels[v]]
            == labels[v]
}

impl UnionFind {
    pub closed spec fn wf(&self) -> bool {
        let n = self.parent@.len();
        &&& self.label@.len() == n
        &&& self.height@.len() == n
        &&& rooted(self.label@)
        &&& forall|v: int|
            0 <= v < n ==> {
                let p = #[trigger] self.parent@[v];
                &&& p < n
                &&& self.label@[p as int] == self.label@[v]
                &&& self.height@[v] >= 0
                &&& p == v <==> self.label@[v] == v
                &&& p != v ==> self.height@[p as int] < self.height@[v]
            }
    }

    pub proof fn lemma_rooted(&self)
        requires
            self.wf(),
        ensures
            rooted(self@),
    {
    }

    /// Every node a class of its own.
    pub fn new(n: usize) -> (classes: Self)
        ensures
            classes.wf(),
            classes@ == Seq::new(n as nat, |v: int| v),
    {
        let mut parent: Vec<usize> = Vec::new();
        while parent.len() < n
            invariant
                parent@.len() <= n,
                forall|v: int| 0 <= v < parent@.len() ==> #[trigger] parent@[v] == v,
            decreases n - parent@.len(),
        {
            let next: usize = parent.len();
            parent.push(next);
        }
        UnionFind {
            parent,
            label: Ghost(Seq::new(n as nat, |v: int| v)),
            height: Ghost(Seq::new(n as nat, |v: int| 0)),
        }
    }

    /// The label of `node`; shortens the path to it.
    pub fn find(&mut self, node: usize) -> (root: usize)
        requires
            old(self).wf(),
            node < old(self)@.len(),
        ensures
            final(self).wf(),
            final(self)@ == old(self)@,
            root == old(self)@[node as int],
    {
        let mut at: usize = node;
        let ghost labels = self.label@;
        while self.parent[at] != at
            invariant
                self.wf(),
                self.label@ == labels,
                at < self.parent@.len(),
                node < labels.len(),
                labels[at as int] == labels[node as int],
            decreases self.height@[at as int],
        {
            let up: usize = self.parent[at];
            let over: usize = self.parent[up];
            proof {
                let top = self.parent@[over as int];
                assert(0 <= self.height@[over as int] < self.height@[at as int]);
            }
            self.parent.set(at, over);
            at = over;
        }
        at
    }

    /// Joins the class of root `right` to that of root `left`.
    pub fn union(&mut self, left: usize, right: usize)
        requires
            old(self).wf(),
            left < old(self)@.len(),
            right < old(self)@.len(),
            left != right,
            old(self)@[left as int] == left,
            old(self)@[right as int] == right,
        ensures
            final(self).wf(),
            final(self)@ == relabel(old(self)@, left as int, right as int),
    {
        let ghost labels = self.label@;
        let ghost heights = self.height@;
        let ghost parents = self.parent@;
        self.parent.set(right, left);
        self.label = Ghost(relabel(labels, left as int, right as int));
        self.height = Ghost(
            Seq::new(
                heights.len(),
                |v: int|
                    if labels[v] == right {
                        heights[v] + heights[left as int] + 1
                    } else {
                        heights[v]
                    },
            ),
        );
        proof {
            let n = parents.len();
            assert forall|v: int| 0 <= v < n implies {
                let p = #[trigger] self.parent@[v];
                &&& p < n
                &&& self.label@[p as int] == self.label@[v]
                &&& self.height@[v] >= 0
                &&& p == v <==> self.label@[v] == v
                &&& p != v ==> self.height@[p as int] < self.height@[v]
            } by {
                assert(parents[v] < n && labels[parents[v] as int] == labels[v]);
                assert(parents[left as int] < n);
            }
        }
    }
}

} // verus!

//! Ranking named weights: heavier first, names ascending among equals.

use vstd::prelude::*;

use crate::digraph::ints;
use crate::lex::{lemma_lex_irreflexive, lemma_lex_total, lemma_lex_transitive, lex_less, text_less};

verus! {

/// The texts behind a list of references.
pub open spec fn strs(list: Seq<&str>) -> Seq<Seq<char>> {
    Seq::new(list.len(), |i: int| list[i]@)
}

/// Distinct names.
pub open spec fn all_distinct(names: Seq<Seq<char>>) -> bool {
    forall|i: int, j: int| 0 <= i < j < names.len() ==> #[trigger] names[i] != #[trigger] names[j]
}

/// `a` ranks before `b`.
pub open spec fn outranks(names: Seq<Seq<char>>, weights: Seq<u64>, a: int, b: int) -> bool {
    weights[a] > weights[b] || (weights[a] == weights[b] && lex_less(names[a], names[b]))
}

/// Every index once, in rank order.
pub open spec fn is_ranked(names: Seq<Seq<char>>, weights: Seq<u64>, order: Seq<int>) -> bool {
    &&& forall|i: int| #[trigger] order.contains(i) <==> 0 <= i < names.len()
    &&& forall|x: int, y: int|
        0 <= x < y < order.len() ==> outranks(
            names,
            weights,
            #[trigger] order[x],
            #[trigger] order[y],
        )
}

/// The rank order.
pub open spec fn ranked(names: Seq<Seq<char>>, weights: Seq<u64>) -> Seq<int> {
    choose|order: Seq<int>| is_ranked(names, weights, order)
}

proof fn lemma_outranks(names: Seq<Seq<char>>, weights: Seq<u64>, a: int, b: int, c: int)
    requires
        outranks(names, weights, a, b),
        outranks(names, weights, b, c),
    ensures
        outranks(names, weights, a, c),
        !outranks(names, weights, a, a),
{
    if weights[a] == weights[b] && weights[b] == weights[c] {
        lemma_lex_transitive(names[a], names[b], names[c]);
    }
    lemma_lex_irreflexive(names[a]);
}

/// There is one rank order.
pub proof fn lemma_ranked_unique(names: Seq<Seq<char>>, weights: Seq<u64>, a: Seq<int>)
    requires
        is_ranked(names, weights, a),
    ensures
        ranked(names, weights) == a,
        is_ranked(names, weights, ranked(names, weights)),
{
    let b = ranked(names, weights);
    assert(is_ranked(names, weights, b));
    lemma_same_prefix(names, weights, a, b, a.len() as int);
    lemma_same_prefix(names, weights, b, a, b.len() as int);
    assert(a =~= b);
}

proof fn lemma_same_prefix(
    names: Seq<Seq<char>>,
    weights: Seq<u64>,
    a: Seq<int>,
    b: Seq<int>,
    k: int,
)
    requires
        is_ranked(names, weights, a),
        is_ranked(names, weights, b),
        0 <= k <= a.len(),
    ensures
        k <= b.len(),
        forall|x: int| 0 <= x < k ==> #[trigger] a[x] == b[x],
    decreases k,
{
    if k > 0 {
        let i = k - 1;
        lemma_same_prefix(names, weights, a, b, i);
        assert(a.contains(a[i]));
        assert(b.contains(a[i]));
        let x = choose|x: int| 0 <= x < b.len() && b[x] == a[i];
        if x < i {
            assert(a[x] == b[x]);
            assert(outranks(names, weights, a[x], a[i]));
            lemma_lex_irreflexive(names[a[i]]);
        } else if x > i {
            assert(b.contains(b[i]));
            assert(a.contains(b[i]));
            let y = choose|y: int| 0 <= y < a.len() && a[y] == b[i];
            if y < i {
                assert(a[y] == b[y]);
                assert(outranks(names, weights, b[y], b[i]));
                lemma_lex_irreflexive(names[b[i]]);
            } else if y > i {
                assert(outranks(names, weights, b[i], b[x]));
                assert(outranks(names, weights, a[i], a[y]));
                lemma_outranks(names, weights, a[i], a[y], a[i]);
            } else {
                assert(outranks(names, weights, b[i], b[x]));
                lemma_lex_irreflexive(names[b[i]]);
            }
        }
    }
}

/// How many of the first entries outrank `next`.
spec fn place(
    names: Seq<Seq<char>>,
    weights: Seq<u64>,
    order: Seq<int>,
    next: int,
    from: int,
) -> int
    decreases order.len() - from,
{
    if from < 0 || from >= order.len() || !outranks(names, weights, order[from], next) {
        from
    } else {
        place(names, weights, order, next, from + 1)
    }
}

proof fn lemma_place(
    names: Seq<Seq<char>>,
    weights: Seq<u64>,
    order: Seq<int>,
    next: int,
    from: int,
)
    requires
        0 <= from <= order.len(),
    ensures
        from <= place(names, weights, order, next, from) <= order.len(),
        forall|x: int|
            from <= x < place(names, weights, order, next, from) ==> outranks(
                names,
                weights,
                #[trigger] order[x],
                next,
            ),
        place(names, weights, order, next, from) < order.len() ==> !outranks(
            names,
            weights,
            order[place(names, weights, order, next, from)],
            next,
        ),
    decreases order.len() - from,
{
    if from < order.len() && outranks(names, weights, order[from], next) {
        lemma_place(names, weights, order, next, from + 1);
    }
}

proof fn lemma_rank_step(
    names: Seq<Seq<char>>,
    weights: Seq<u64>,
    order: Seq<int>,
    k: int,
) -> (longer: Seq<int>)
    requires
        weights.len() == names.len(),
        all_distinct(names),
        0 <= k < names.len(),
        order.len() == k,
        is_ranked(names.take(k), weights.take(k), order),
    ensures
        longer.len() == k + 1,
        is_ranked(names.take(k + 1), weights.take(k + 1), longer),
{
    let at = place(names, weights, order, k, 0);
    lemma_place(names, weights, order, k, 0);
    let longer = order.insert(at, k);
    assert forall|x: int| 0 <= x < order.len() implies 0 <= #[trigger] order[x] < k by {
        assert(order.contains(order[x]));
    }
    assert forall|x: int, y: int| 0 <= x < y < order.len() implies outranks(
        names,
        weights,
        #[trigger] order[x],
        #[trigger] order[y],
    ) by {
        assert(outranks(names.take(k), weights.take(k), order[x], order[y]));
    }
    assert forall|x: int| at <= x < order.len() implies outranks(
        names,
        weights,
        k,
        #[trigger] order[x],
    ) by {
        let head = order[at];
        lemma_lex_total(names[head], names[k]);
        assert(names[head] != names[k]);
        assert(outranks(names, weights, k, head));
        if x > at {
            lemma_outranks(names, weights, k, head, order[x]);
        }
    }
    assert forall|x: int| 0 <= x < longer.len() implies 0 <= #[trigger] longer[x] < k + 1 by {
        if x < at {
            assert(longer[x] == order[x]);
        } else if x > at {
            assert(longer[x] == order[x - 1]);
        }
    }
    assert forall|x: int, y: int| 0 <= x < y < longer.len() implies outranks(
        names.take(k + 1),
        weights.take(k + 1),
        #[trigger] longer[x],
        #[trigger] longer[y],
    ) by {
        let a = if x < at {
            x
        } else {
            x - 1
        };
        let b = if y < at {
            y
        } else {
            y - 1
        };
        if x == at {
            assert(longer[y] == order[b]);
        } else if y == at {
            assert(longer[x] == order[a]);
        } else {
            assert(longer[x] == order[a]);
            assert(longer[y] == order[b]);
        }
        assert(outranks(names, weights, longer[x], longer[y]));
    }
    assert forall|i: int| #[trigger] longer.contains(i) <==> 0 <= i < k + 1 by {
        if longer.contains(i) {
            let x = choose|x: int| 0 <= x < longer.len() && longer[x] == i;
            assert(0 <= longer[x] < k + 1);
        }
        if 0 <= i < k {
            assert(order.contains(i));
            let x = choose|x: int| 0 <= x < order.len() && order[x] == i;
            let y = if x < at {
                x
            } else {
                x + 1
            };
            assert(longer[y] == i);
        }
        if i == k {
            assert(longer[at] == i);
        }
    }
    longer
}

proof fn lemma_rank_prefix(names: Seq<Seq<char>>, weights: Seq<u64>, k: int) -> (order: Seq<int>)
    requires
        weights.len() == names.len(),
        all_distinct(names),
        0 <= k <= names.len(),
    ensures
        order.len() == k,
        is_ranked(names.take(k), weights.take(k), order),
    decreases k,
{
    if k == 0 {
        Seq::empty()
    } else {
        let before = lemma_rank_prefix(names, weights, k - 1);
        lemma_rank_step(names, weights, before, k - 1)
    }
}

/// Distinct names can be ranked.
pub proof fn lemma_rankable(names: Seq<Seq<char>>, weights: Seq<u64>)
    requires
        weights.len() == names.len(),
        all_distinct(names),
    ensures
        is_ranked(names, weights, ranked(names, weights)),
        ranked(names, weights).len() == names.len(),
{
    let order = lemma_rank_prefix(names, weights, names.len() as int);
    assert(names.take(names.len() as int) =~= names);
    assert(weights.take(names.len() as int) =~= weights);
    lemma_ranked_unique(names, weights, order);
}

/// Ranks distinct names by weight.
pub fn rank(names: &Vec<&str>, weights: &Vec<u64>) -> (order: Vec<usize>)
    requires
        weights@.len() == names@.len(),
        all_distinct(strs(names@)),
    ensures
        ints(order@) == ranked(strs(names@), weights@),
        order@.len() == names@.len(),
        forall|x: int| 0 <= x < order@.len() ==> #[trigger] order@[x] < names@.len(),
{
    let ghost texts = strs(names@);
    let mut order: Vec<usize> = Vec::new();
    while order.len() < names.len()
        invariant
            order@.len() <= names@.len(),
            weights@.len() == names@.len(),
            texts == strs(names@),
            all_distinct(texts),
            forall|i: int| #[trigger]
                ints(order@).contains(i) <==> 0 <= i < order@.len(),
            forall|x: int| 0 <= x < order@.len() ==> #[trigger] order@[x] < order@.len(),
            forall|x: int, y: int|
                0 <= x < y < order@.len() ==> outranks(
                    texts,
                    weights@,
                    #[trigger] order@[x] as int,
                    #[trigger] order@[y] as int,
                ),
        decreases names@.len() - order@.len(),
    {
        let next: usize = order.len();
        let ghost before = order@;
        let mut at: usize = 0;
        while at < order.len() && (weights[order[at]] > weights[next] || (weights[order[at]]
            == weights[next] && text_less(names[order[at]], names[next])))
            invariant
                at <= order@.len(),
                order@ == before,
                next == before.len(),
                next < names@.len(),
                weights@.len() == names@.len(),
                texts == strs(names@),
                forall|x: int| 0 <= x < before.len() ==> #[trigger] before[x] < before.len(),
                forall|x: int|
                    0 <= x < at ==> outranks(
                        texts,
                        weights@,
                        #[trigger] before[x] as int,
                        next as int,
                    ),
            decreases order@.len() - at,
        {
            assert(texts[before[at as int] as int] == names@[before[at as int] as int]@);
            at = at + 1;
        }
        order.insert(at, next);
        proof {
            let now = order@;
            assert(now == before.insert(at as int, next));
            assert forall|x: int| at <= x < before.len() implies outranks(
                texts,
                weights@,
                next as int,
                #[trigger] before[x] as int,
            ) by {
                let head = before[at as int] as int;
                assert(head < next);
                assert(texts[head] == names@[head]@);
                assert(texts[next as int] == names@[next as int]@);
                lemma_lex_total(texts[head], texts[next as int]);
                assert(outranks(texts, weights@, next as int, head));
                if x > at {
                    lemma_outranks(texts, weights@, next as int, head, before[x] as int);
                }
            }
            assert forall|x: int| 0 <= x < now.len() implies #[trigger] now[x] < now.len() by {
                if x < at {
                    assert(now[x] == before[x]);
                } else if x > at {
                    assert(now[x] == before[x - 1]);
                }
            }
            assert forall|x: int, y: int| 0 <= x < y < now.len() implies outranks(
                texts,
                weights@,
                #[trigger] now[x] as int,
                #[trigger] now[y] as int,
            ) by {
                let a = if x < at {
                    x
                } else {
                    x - 1
                };
                let b = if y < at {
                    y
                } else {
                    y - 1
                };
                if x == at {
                    assert(now[y] == before[b]);
                } else if y == at {
                    assert(now[x] == before[a]);
                } else {
                    assert(now[x] == before[a]);
                    assert(now[y] == before[b]);
                }
            }
            assert forall|i: int| #[trigger] ints(now).contains(i) <==> 0 <= i < now.len() by {
                if ints(now).contains(i) {
                    let x = choose|x: int| 0 <= x < ints(now).len() && ints(now)[x] == i;
                    assert(now[x] < now.len());
                }
                if 0 <= i < before.len() {
                    assert(ints(before).contains(i));
                    let x = choose|x: int| 0 <= x < ints(before).len() && ints(before)[x] == i;
                    let y = if x < at {
                        x
                    } else {
                        x + 1
                    };
                    assert(now[y] == before[x]);
                    assert(ints(now)[y] == i);
                }
                if i == next {
                    assert(ints(now)[at as int] == i);
                }
            }
        }
    }
    proof {
        assert forall|x: int, y: int| 0 <= x < y < ints(order@).len() implies outranks(
            texts,
            weights@,
            #[trigger] ints(order@)[x],
            #[trigger] ints(order@)[y],
        ) by {
            assert(outranks(texts, weights@, order@[x] as int, order@[y] as int));
        }
        assert(is_ranked(texts, weights@, ints(order@)));
        lemma_ranked_unique(texts, weights@, ints(order@));
    }
    order
}

} // verus!

//! What is told of refused nodes, counted one by one.

use vstd::prelude::*;

use crate::declined::declined_below;
use crate::lex::{lemma_lex_irreflexive, lex_less};
use crate::rejection::{
    is_ranking, no_refusals, ranks_before, reason_for, refusals_of, refuse, refused, refused_below,
    ClaimFacts, Refusals, Rejection,
};

verus! {

/// The places below `k` of the nodes of that operator that cannot run here, in order.
pub open spec fn refused_places(
    claims: Seq<ClaimFacts>,
    supported: Seq<bool>,
    op: Seq<char>,
    k: int,
) -> Seq<int>
    decreases k,
{
    if k <= 0 {
        Seq::empty()
    } else {
        let before = refused_places(claims, supported, op, k - 1);
        if !supported[k - 1] && claims[k - 1].qualified_name@ == op {
            before.push(k - 1)
        } else {
            before
        }
    }
}

/// Why the node at that place is refused: in a body, that it goes with the node of the body; else
/// what the registry says, or that it says nothing.
pub open spec fn told_reason(facts: ClaimFacts, in_body: bool, reason: Seq<char>) -> bool {
    if in_body {
        reason
            == "inside a control-flow subgraph body — claimed as part of the parent If/Loop/Scan, not individually"@
    } else if facts.refusal is Some {
        reason == facts.refusal->0@
    } else {
        reason == "declined (no reason reported)"@
    }
}

/// The places whose nodes have a name.
pub open spec fn named_places(claims: Seq<ClaimFacts>, places: Seq<int>) -> Seq<int>
    decreases places.len(),
{
    if places.len() == 0 {
        Seq::empty()
    } else {
        let before = named_places(claims, places.drop_last());
        if claims[places.last()].name@.len() > 0 {
            before.push(places.last())
        } else {
            before
        }
    }
}

/// What is told of an operator agrees with the places of its refused nodes: their number; the names
/// of the first sixteen that have one; and the first reason that is not empty, or none.
pub open spec fn agrees(
    claims: Seq<ClaimFacts>,
    in_body: bool,
    places: Seq<int>,
    told: Refusals,
) -> bool {
    let named = named_places(claims, places);
    &&& told.count == places.len()
    &&& told.names.len() == (if named.len() < 16 {
        named.len()
    } else {
        16
    })
    &&& forall|i: int|
        0 <= i < told.names.len() ==> #[trigger] told.names[i] == claims[named[i]].name@
    &&& told.reason.len() == 0 ==> forall|i: int|
        0 <= i < places.len() ==> reason_for(#[trigger] claims[places[i]], in_body).len() == 0
    &&& told.reason.len() > 0 ==> exists|i: int|
        {
            &&& 0 <= i < places.len()
            &&& told_reason(#[trigger] claims[places[i]], in_body, told.reason)
            &&& forall|j: int|
                0 <= j < i ==> reason_for(#[trigger] claims[places[j]], in_body).len() == 0
        }
}

proof fn lemma_agrees_more(
    claims: Seq<ClaimFacts>,
    in_body: bool,
    places: Seq<int>,
    told: Refusals,
    at: int,
)
    requires
        agrees(claims, in_body, places, told),
    ensures
        agrees(claims, in_body, places.push(at), refuse(told, claims[at], in_body)),
{
    let more = places.push(at);
    let next = refuse(told, claims[at], in_body);
    assert(more.drop_last() =~= places);
    assert(more.last() == at);
    assert forall|i: int| 0 <= i < places.len() implies #[trigger] more[i] == places[i] by {}
    let named = named_places(claims, places);
    let more_named = named_places(claims, more);
    assert forall|i: int| 0 <= i < next.names.len() implies #[trigger] next.names[i]
        == claims[more_named[i]].name@ by {
        if i < told.names.len() {
            assert(told.names[i] == claims[named[i]].name@);
        }
    }
    if told.reason.len() > 0 {
        let i = choose|i: int|
            {
                &&& 0 <= i < places.len()
                &&& told_reason(#[trigger] claims[places[i]], in_body, told.reason)
                &&& forall|j: int|
                    0 <= j < i ==> reason_for(#[trigger] claims[places[j]], in_body).len() == 0
            };
        assert(told_reason(claims[more[i]], in_body, next.reason));
        assert forall|j: int| 0 <= j < i implies reason_for(
            #[trigger] claims[more[j]],
            in_body,
        ).len() == 0 by {
            assert(claims[places[j]] == claims[more[j]]);
        }
    } else {
        assert forall|j: int| 0 <= j < places.len() implies reason_for(
            #[trigger] claims[more[j]],
            in_body,
        ).len() == 0 by {
            assert(claims[places[j]] == claims[more[j]]);
        }
        if next.reason.len() > 0 {
            assert(told_reason(claims[more[places.len() as int]], in_body, next.reason));
        } else {
            assert forall|j: int| 0 <= j < more.len() implies reason_for(
                #[trigger] claims[more[j]],
                in_body,
            ).len() == 0 by {
                if j == places.len() {
                    assert(claims[more[j]] == claims[at]);
                }
            }
        }
    }
}

proof fn lemma_refused_below(
    claims: Seq<ClaimFacts>,
    supported: Seq<bool>,
    in_body: bool,
    op: Seq<char>,
    k: int,
)
    requires
        0 <= k,
    ensures
        ({
            let table = refused_below(claims, supported, in_body, k);
            let places = refused_places(claims, supported, op, k);
            &&& table.contains_key(op) == (places.len() > 0)
            &&& table.contains_key(op) ==> agrees(claims, in_body, places, table[op])
        }),
    decreases k,
{
    if k > 0 {
        lemma_refused_below(claims, supported, in_body, op, k - 1);
        let before = refused_below(claims, supported, in_body, k - 1);
        let places = refused_places(claims, supported, op, k - 1);
        if !supported[k - 1] && claims[k - 1].qualified_name@ == op {
            if before.contains_key(op) {
                lemma_agrees_more(claims, in_body, places, before[op], k - 1);
            } else {
                assert(agrees(claims, in_body, places, no_refusals()));
                lemma_agrees_more(claims, in_body, places, no_refusals(), k - 1);
            }
        }
    }
}

/// The table of refusals lists an operator exactly if some of its nodes cannot run here, and tells
/// of it their number, the first sixteen names among them, and their first reason.
pub proof fn law_refusals_are_counted(
    claims: Seq<ClaimFacts>,
    supported: Seq<bool>,
    in_body: bool,
    op: Seq<char>,
)
    ensures
        ({
            let table = refused(claims, supported, in_body);
            let places = refused_places(claims, supported, op, claims.len() as int);
            &&& table.contains_key(op) == (places.len() > 0)
            &&& table.contains_key(op) ==> agrees(claims, in_body, places, table[op])
        }),
{
    lemma_refused_below(claims, supported, in_body, op, claims.len() as int);
}

/// The refused places are those of the nodes of that operator that cannot run here, each once and
/// in ascending order.
pub proof fn law_refused_places(
    claims: Seq<ClaimFacts>,
    supported: Seq<bool>,
    op: Seq<char>,
    k: int,
)
    requires
        0 <= k,
    ensures
        forall|i: int| #[trigger]
            refused_places(claims, supported, op, k).contains(i) <==> 0 <= i < k && !supported[i]
                && claims[i].qualified_name@ == op,
        forall|i: int, j: int|
            0 <= i < j < refused_places(claims, supported, op, k).len() ==> refused_places(
                claims,
                supported,
                op,
                k,
            )[i] < refused_places(claims, supported, op, k)[j],
    decreases k,
{
    let all = refused_places(claims, supported, op, k);
    if k > 0 {
        law_refused_places(claims, supported, op, k - 1);
        let before = refused_places(claims, supported, op, k - 1);
        assert forall|i: int| #[trigger] all.contains(i) <==> 0 <= i < k && !supported[i]
            && claims[i].qualified_name@ == op by {
            if all.contains(i) && i != k - 1 {
                let x = choose|x: int| 0 <= x < all.len() && all[x] == i;
                assert(before[x] == i);
                assert(before.contains(i));
            }
            if all.contains(i) && i == k - 1 && all == before {
                assert(before.contains(i));
            }
            if 0 <= i < k && !supported[i] && claims[i].qualified_name@ == op {
                if i < k - 1 {
                    assert(before.contains(i));
                    let x = choose|x: int| 0 <= x < before.len() && before[x] == i;
                    assert(all[x] == i);
                } else {
                    assert(all[all.len() - 1] == i);
                }
            }
        }
        assert forall|i: int, j: int| 0 <= i < j < all.len() implies all[i] < all[j] by {
            if all != before && j == before.len() {
                assert(before.contains(before[i]));
            }
        }
    }
}

/// The nodes of that operator in the first `k` rejections.
pub open spec fn nodes_of_op(rejected: Seq<Rejection>, op: Seq<char>, k: int) -> int
    decreases k,
{
    if k <= 0 {
        0
    } else {
        nodes_of_op(rejected, op, k - 1) + (if rejected[k - 1].op@ == op {
            rejected[k - 1].count as int
        } else {
            0
        })
    }
}

/// The rejection at place `j` gives the reason of its operator: it is the last that says something.
pub open spec fn gives_reason(rejected: Seq<Rejection>, op: Seq<char>, k: int, j: int) -> bool {
    &&& 0 <= j < k
    &&& rejected[j].op@ == op
    &&& rejected[j].reason@.len() > 0
    &&& forall|i: int|
        j < i < k && (#[trigger] rejected[i]).op@ == op ==> rejected[i].reason@.len() == 0
}

/// Adding rejections adds the nodes of each operator to its count, keeps all other counts, and keeps
/// the last reason of an operator that says something.
pub proof fn law_rejections_add_up(
    map: Map<Seq<char>, (u64, Seq<char>)>,
    rejected: Seq<Rejection>,
    k: int,
    op: Seq<char>,
)
    requires
        0 <= k <= rejected.len(),
        (if map.contains_key(op) {
            map[op].0 as int
        } else {
            0
        }) + nodes_of_op(rejected, op, k) <= u64::MAX,
    ensures
        ({
            let next = declined_below(map, rejected, k);
            let seen = exists|j: int| 0 <= j < k && (#[trigger] rejected[j]).op@ == op;
            let before = if map.contains_key(op) {
                map[op]
            } else {
                (0u64, Seq::<char>::empty())
            };
            &&& next.contains_key(op) == (map.contains_key(op) || seen)
            &&& next.contains_key(op) ==> next[op].0 == before.0 + nodes_of_op(rejected, op, k)
            &&& forall|j: int| #[trigger]
                gives_reason(rejected, op, k, j) ==> next[op].1 == rejected[j].reason@
            &&& next.contains_key(op) && (forall|j: int| !#[trigger]
                gives_reason(rejected, op, k, j)) ==> next[op].1 == before.1
        }),
    decreases k,
{
    if k > 0 {
        lemma_nodes_of_op(rejected, op, k - 1);
        law_rejections_add_up(map, rejected, k - 1, op);
        let prior = declined_below(map, rejected, k - 1);
        let next = declined_below(map, rejected, k);
        let last = rejected[k - 1];
        let says = last.op@ == op && last.reason@.len() > 0;
        assert(says ==> gives_reason(rejected, op, k, k - 1));
        if !says {
            assert forall|j: int| #[trigger] gives_reason(rejected, op, k, j) implies gives_reason(
                rejected,
                op,
                k - 1,
                j,
            ) by {}
            if forall|j: int| !#[trigger] gives_reason(rejected, op, k, j) {
                assert forall|j: int| !#[trigger] gives_reason(rejected, op, k - 1, j) by {
                    if gives_reason(rejected, op, k - 1, j) {
                        assert(gives_reason(rejected, op, k, j));
                    }
                }
            }
        }
        assert forall|j: int| #[trigger] gives_reason(rejected, op, k, j) implies next[op].1
            == rejected[j].reason@ by {
            if says && j < k - 1 {
                assert(rejected[k - 1].reason@.len() == 0);
            }
            if !says {
                assert(gives_reason(rejected, op, k - 1, j));
            }
        }
        if exists|j: int| 0 <= j < k && (#[trigger] rejected[j]).op@ == op {
            let j = choose|j: int| 0 <= j < k && (#[trigger] rejected[j]).op@ == op;
            if j < k - 1 {
                assert(rejected[j].op@ == op);
            }
        }
        if exists|j: int| 0 <= j < k - 1 && (#[trigger] rejected[j]).op@ == op {
            let j = choose|j: int| 0 <= j < k - 1 && (#[trigger] rejected[j]).op@ == op;
            assert(0 <= j < k && rejected[j].op@ == op);
        }
    }
}

proof fn lemma_nodes_of_op(rejected: Seq<Rejection>, op: Seq<char>, k: int)
    ensures
        nodes_of_op(rejected, op, k) >= 0,
        (forall|j: int| 0 <= j < k ==> (#[trigger] rejected[j]).op@ != op) ==> nodes_of_op(
            rejected,
            op,
            k,
        ) == 0,
    decreases k,
{
    if k > 0 {
        lemma_nodes_of_op(rejected, op, k - 1);
    }
}

/// The list of refusals has one entry for each operator of the table and no other, with the
/// operator's number, reason and names; no entry counts more than one before it, and among equal
/// counts the operators rise.
pub proof fn law_refusals_ranked(
    list: Seq<Rejection>,
    table: Map<Seq<char>, Refusals>,
    op: Seq<char>,
    i: int,
    j: int,
)
    requires
        is_ranking(list, table),
    ensures
        table.contains_key(op) <==> exists|k: int|
            0 <= k < list.len() && (#[trigger] list[k]).op@ == op,
        0 <= i < list.len() ==> {
            let told = table[list[i].op@];
            &&& list[i].count == told.count
            &&& list[i].reason@ == told.reason
            &&& list[i].names@.len() == told.names.len()
            &&& forall|k: int|
                0 <= k < told.names.len() ==> (#[trigger] list[i].names@[k])@ == told.names[k]
        },
        0 <= i < j < list.len() ==> {
            &&& list[i].count >= list[j].count
            &&& list[i].count == list[j].count ==> lex_less(list[i].op@, list[j].op@)
            &&& list[i].op@ != list[j].op@
        },
{
    if 0 <= i < list.len() {
        assert(table[list[i].op@] == refusals_of(list[i]));
    }
    if 0 <= i < j < list.len() {
        assert(ranks_before(list[i], list[j]));
        assert(table[list[j].op@] == refusals_of(list[j]));
        if list[i].op@ == list[j].op@ {
            lemma_lex_irreflexive(list[i].op@);
        }
    }
}

} // verus!

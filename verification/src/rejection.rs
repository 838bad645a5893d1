//! Why nodes were left to other providers, grouped by operator.

use vstd::prelude::*;

use crate::lex::{lemma_lex_total, lemma_lex_transitive, lex_less, text_less};
use crate::registry::CompileShapeSafety;
use crate::text::same_text;

verus! {

/// What the registry answers for one node.
pub struct ClaimFacts {
    pub claimable: bool,
    /// Why the node is refused, where the registry says so.
    pub refusal: Option<String>,
    pub qualified_name: String,
    pub name: String,
    /// The node computes attention with separate query, key and value inputs.
    pub separate_qkv: bool,
    /// The attribute `bits`, four if there is none.
    pub bits: i64,
    /// The third input is the constant one.
    pub unit_step: bool,
    /// One of the first three inputs is not a constant number.
    pub open_bounds: bool,
    /// The second input is a constant list of integers.
    pub constant_repeats: bool,
    pub shape_safety: CompileShapeSafety,
}

/// The nodes of one operator that were refused.
pub struct Rejection {
    pub op: String,
    pub count: usize,
    pub reason: String,
    /// The names of the first of them.
    pub names: Vec<String>,
}

/// What is known of the refused nodes of one operator.
#[verifier::ext_equal]
pub ghost struct Refusals {
    pub count: nat,
    pub reason: Seq<char>,
    pub names: Seq<Seq<char>>,
}

/// No more names than this are kept for an operator.
pub const NAMES_KEPT: usize = 16;

pub open spec fn texts(list: Seq<String>) -> Seq<Seq<char>> {
    Seq::new(list.len(), |i: int| list[i]@)
}

pub open spec fn refusals_of(rejection: Rejection) -> Refusals {
    Refusals {
        count: rejection.count as nat,
        reason: rejection.reason@,
        names: texts(rejection.names@),
    }
}

/// Why a node is refused.
pub open spec fn reason_for(facts: ClaimFacts, in_body: bool) -> Seq<char> {
    if in_body {
        "inside a control-flow subgraph body — claimed as part of the parent If/Loop/Scan, not individually"@
    } else {
        match facts.refusal {
            Some(reason) => reason@,
            None => "declined (no reason reported)"@,
        }
    }
}

/// The refusals of an operator after one more node: the first reason stays unless it is empty, and
/// unnamed nodes are counted without a name.
pub open spec fn refuse(before: Refusals, facts: ClaimFacts, in_body: bool) -> Refusals {
    Refusals {
        count: before.count + 1,
        reason: if before.reason.len() == 0 {
            reason_for(facts, in_body)
        } else {
            before.reason
        },
        names: if before.names.len() < NAMES_KEPT && facts.name@.len() > 0 {
            before.names.push(facts.name@)
        } else {
            before.names
        },
    }
}

pub open spec fn no_refusals() -> Refusals {
    Refusals { count: 0, reason: Seq::empty(), names: Seq::empty() }
}

/// The refusals by operator among the first `k` listed nodes.
pub open spec fn refused_below(
    claims: Seq<ClaimFacts>,
    supported: Seq<bool>,
    in_body: bool,
    k: int,
) -> Map<Seq<char>, Refusals>
    decreases k,
{
    if k <= 0 {
        Map::empty()
    } else {
        let before = refused_below(claims, supported, in_body, k - 1);
        if supported[k - 1] {
            before
        } else {
            let op = claims[k - 1].qualified_name@;
            before.insert(
                op,
                refuse(
                    if before.contains_key(op) {
                        before[op]
                    } else {
                        no_refusals()
                    },
                    claims[k - 1],
                    in_body,
                ),
            )
        }
    }
}

/// The refusals by operator.
pub open spec fn refused(
    claims: Seq<ClaimFacts>,
    supported: Seq<bool>,
    in_body: bool,
) -> Map<Seq<char>, Refusals> {
    refused_below(claims, supported, in_body, claims.len() as int)
}

/// More refusals come first; among equals the operator names ascend.
pub open spec fn ranks_before(a: Rejection, b: Rejection) -> bool {
    a.count > b.count || (a.count == b.count && lex_less(a.op@, b.op@))
}

/// Every entry is in the table.
pub open spec fn drawn_from(list: Seq<Rejection>, table: Map<Seq<char>, Refusals>) -> bool {
    forall|i: int|
        0 <= i < list.len() ==> table.contains_key((#[trigger] list[i]).op@) && table[list[i].op@]
            == refusals_of(list[i])
}

/// `op` has an entry.
pub open spec fn lists_op(list: Seq<Rejection>, op: Seq<char>) -> bool {
    exists|i: int| 0 <= i < list.len() && (#[trigger] list[i]).op@ == op
}

/// The whole table, ranked.
pub open spec fn is_ranking(list: Seq<Rejection>, table: Map<Seq<char>, Refusals>) -> bool {
    &&& drawn_from(list, table)
    &&& forall|op: Seq<char>| #[trigger] table.contains_key(op) ==> lists_op(list, op)
    &&& forall|i: int, j: int|
        0 <= i < j < list.len() ==> ranks_before(#[trigger] list[i], #[trigger] list[j])
}

/// Entries for distinct operators.
pub open spec fn ops_distinct(list: Seq<Rejection>) -> bool {
    forall|i: int, j: int|
        0 <= i < j < list.len() ==> (#[trigger] list[i]).op@ != (#[trigger] list[j]).op@
}

fn reason_text(facts: &ClaimFacts, in_body: bool) -> (reason: String)
    ensures
        reason@ == reason_for(*facts, in_body),
{
    if in_body {
        "inside a control-flow subgraph body — claimed as part of the parent If/Loop/Scan, not individually".to_owned()
    } else {
        match &facts.refusal {
            Some(reason) => reason.clone(),
            None => "declined (no reason reported)".to_owned(),
        }
    }
}

/// Counts one more refused node for an entry.
fn refuse_node(entry: &mut Rejection, facts: &ClaimFacts, in_body: bool)
    requires
        old(entry).count < usize::MAX,
    ensures
        final(entry).op == old(entry).op,
        refusals_of(*final(entry)) == refuse(refusals_of(*old(entry)), *facts, in_body),
{
    let ghost before = *entry;
    entry.count = entry.count + 1;
    if entry.reason.as_str().is_empty() {
        entry.reason = reason_text(facts, in_body);
    }
    if entry.names.len() < NAMES_KEPT && !facts.name.as_str().is_empty() {
        entry.names.push(facts.name.clone());
        proof {
            assert(texts(entry.names@) =~= texts(before.names@).push(facts.name@));
        }
    }
}

/// Puts an entry into a ranked list.
fn rank_entry(ranked: &mut Vec<Rejection>, entry: Rejection)
    requires
        forall|i: int, j: int|
            0 <= i < j < old(ranked)@.len() ==> ranks_before(
                #[trigger] old(ranked)@[i],
                #[trigger] old(ranked)@[j],
            ),
        forall|i: int| 0 <= i < old(ranked)@.len() ==> (#[trigger] old(ranked)@[i]).op@ != entry.op@,
    ensures
        exists|at: int|
            0 <= at <= old(ranked)@.len() && final(ranked)@ == #[trigger] old(ranked)@.insert(
                at,
                entry,
            ),
        forall|i: int, j: int|
            0 <= i < j < final(ranked)@.len() ==> ranks_before(
                #[trigger] final(ranked)@[i],
                #[trigger] final(ranked)@[j],
            ),
{
    let ghost before = ranked@;
    let mut at: usize = 0;
    while at < ranked.len() && (ranked[at].count > entry.count || (ranked[at].count == entry.count
        && text_less(ranked[at].op.as_str(), entry.op.as_str())))
        invariant
            at <= ranked@.len(),
            ranked@ == before,
            forall|i: int| 0 <= i < at ==> ranks_before(#[trigger] ranked@[i], entry),
        decreases ranked@.len() - at,
    {
        at = at + 1;
    }
    ranked.insert(at, entry);
    proof {
        let now = ranked@;
        assert(now == before.insert(at as int, entry));
        assert forall|i: int| at <= i < before.len() implies ranks_before(
            entry,
            #[trigger] before[i],
        ) by {
            lemma_lex_total(before[at as int].op@, entry.op@);
            if i > at {
                assert(ranks_before(before[at as int], before[i]));
                if entry.count == before[at as int].count && before[at as int].count
                    == before[i].count {
                    lemma_lex_transitive(entry.op@, before[at as int].op@, before[i].op@);
                }
            }
        }
        assert forall|i: int, j: int| 0 <= i < j < now.len() implies ranks_before(
            #[trigger] now[i],
            #[trigger] now[j],
        ) by {
            let a = if i < at {
                i
            } else {
                i - 1
            };
            let b = if j < at {
                j
            } else {
                j - 1
            };
            if i == at {
                assert(now[j] == before[b]);
            } else if j == at {
                assert(now[i] == before[a]);
            } else {
                assert(now[i] == before[a]);
                assert(now[j] == before[b]);
            }
        }
    }
}

/// Groups the refused nodes by operator and ranks the groups.
pub fn collect_rejections(
    claims: &Vec<&ClaimFacts>,
    supported: &Vec<bool>,
    in_body: bool,
) -> (list: Vec<Rejection>)
    requires
        supported@.len() == claims@.len(),
    ensures
        is_ranking(list@, refused(facts_of(claims@), supported@, in_body)),
{
    let ghost facts = facts_of(claims@);
    let mut list: Vec<Rejection> = Vec::new();
    let mut at: usize = 0;
    while at < claims.len()
        invariant
            at <= claims@.len(),
            supported@.len() == claims@.len(),
            facts == facts_of(claims@),
            drawn_from(list@, refused_below(facts, supported@, in_body, at as int)),
            forall|op: Seq<char>| #[trigger]
                refused_below(facts, supported@, in_body, at as int).contains_key(op) ==> lists_op(
                    list@,
                    op,
                ),
            ops_distinct(list@),
            forall|i: int| 0 <= i < list@.len() ==> (#[trigger] list@[i]).count <= at,
        decreases claims@.len() - at,
    {
        let ghost table = refused_below(facts, supported@, in_body, at as int);
        let ghost next = refused_below(facts, supported@, in_body, at + 1);
        if !supported[at] {
            let claim: &ClaimFacts = claims[at];
            let ghost op = claim.qualified_name@;
            let ghost before = list@;
            assert(facts[at as int] == *claim);
            let mut found: usize = 0;
            while found < list.len() && !same_text(
                list[found].op.as_str(),
                claim.qualified_name.as_str(),
            )
                invariant
                    found <= list@.len(),
                    list@ == before,
                    op == claim.qualified_name@,
                    forall|i: int| 0 <= i < found ==> (#[trigger] list@[i]).op@ != op,
                decreases list@.len() - found,
            {
                found = found + 1;
            }
            if found == list.len() {
                let names: Vec<String> = Vec::new();
                let mut entry = Rejection {
                    op: claim.qualified_name.clone(),
                    count: 0,
                    reason: String::new(),
                    names,
                };
                proof {
                    assert(texts(names@) =~= Seq::<Seq<char>>::empty());
                    if table.contains_key(op) {
                        assert(lists_op(before, op));
                    }
                }
                refuse_node(&mut entry, claim, in_body);
                list.push(entry);
            } else {
                refuse_node(&mut list[found], claim, in_body);
            }
            proof {
                let now = list@;
                assert forall|i: int| 0 <= i < now.len() implies next.contains_key(
                    (#[trigger] now[i]).op@,
                ) && next[now[i].op@] == refusals_of(now[i]) by {
                    if i != found {
                        assert(now[i] == before[i]);
                        assert(before[i].op@ != op) by {
                            if found < before.len() {
                                assert(before[found as int].op@ == op);
                            }
                        }
                    }
                }
                assert forall|other: Seq<char>| #[trigger] next.contains_key(other) implies lists_op(
                    now,
                    other,
                ) by {
                    if other == op {
                        assert(now[found as int].op@ == op);
                    } else {
                        assert(table.contains_key(other));
                        let i = choose|i: int|
                            0 <= i < before.len() && (#[trigger] before[i]).op@ == other;
                        assert(now[i].op@ == other);
                    }
                }
                assert forall|i: int, j: int| 0 <= i < j < now.len() implies (
                #[trigger] now[i]).op@ != (#[trigger] now[j]).op@ by {
                    if j < before.len() {
                        assert(now[i].op == before[i].op);
                        assert(now[j].op == before[j].op);
                    } else {
                        assert(now[i] == before[i]);
                    }
                }
            }
        }
        at = at + 1;
    }
    let ghost table = refused(facts, supported@, in_body);
    let ghost all = list@;
    let mut ranked: Vec<Rejection> = Vec::new();
    while list.len() > 0
        invariant
            drawn_from(list@, table),
            drawn_from(ranked@, table),
            ops_distinct(list@),
            forall|op: Seq<char>| #[trigger]
                table.contains_key(op) ==> lists_op(list@, op) || lists_op(ranked@, op),
            forall|i: int, j: int|
                0 <= i < list@.len() && 0 <= j < ranked@.len() ==> (#[trigger] list@[i]).op@ != (
                #[trigger] ranked@[j]).op@,
            forall|i: int, j: int|
                0 <= i < j < ranked@.len() ==> ranks_before(
                    #[trigger] ranked@[i],
                    #[trigger] ranked@[j],
                ),
        decreases list@.len(),
    {
        let ghost rest = list@.drop_last();
        let ghost before = list@;
        let ghost old_ranked = ranked@;
        match list.pop() {
            None => {},
            Some(entry) => {
                proof {
                    assert(entry == before.last());
                    assert(list@ == rest);
                }
                rank_entry(&mut ranked, entry);
                proof {
                    let at = choose|at: int|
                        0 <= at <= old_ranked.len() && ranked@ == #[trigger] old_ranked.insert(
                            at,
                            entry,
                        );
                    let now = ranked@;
                    assert forall|j: int| 0 <= j < now.len() implies now[j] == (if j == at {
                        entry
                    } else if j < at {
                        old_ranked[j]
                    } else {
                        old_ranked[j - 1]
                    }) by {}
                    assert forall|j: int| 0 <= j < now.len() implies table.contains_key(
                        (#[trigger] now[j]).op@,
                    ) && table[now[j].op@] == refusals_of(now[j]) by {
                        if j == at {
                            assert(before[before.len() - 1] == entry);
                        } else if j < at {
                            assert(now[j] == old_ranked[j]);
                        } else {
                            assert(now[j] == old_ranked[j - 1]);
                        }
                    }
                    assert forall|i: int, j: int|
                        0 <= i < list@.len() && 0 <= j < now.len() implies (
                    #[trigger] list@[i]).op@ != (#[trigger] now[j]).op@ by {
                        assert(list@[i] == before[i]);
                        if j == at {
                            assert(before[before.len() - 1] == entry);
                        } else if j < at {
                            assert(now[j] == old_ranked[j]);
                        } else {
                            assert(now[j] == old_ranked[j - 1]);
                        }
                    }
                    assert forall|op: Seq<char>| #[trigger] table.contains_key(op) implies lists_op(
                        list@,
                        op,
                    ) || lists_op(now, op) by {
                        if lists_op(before, op) {
                            let i = choose|i: int|
                                0 <= i < before.len() && (#[trigger] before[i]).op@ == op;
                            if i < list@.len() {
                                assert(list@[i].op@ == op);
                            } else {
                                assert(now[at].op@ == op);
                            }
                        } else {
                            let j = choose|j: int|
                                0 <= j < old_ranked.len() && (#[trigger] old_ranked[j]).op@ == op;
                            if j < at {
                                assert(now[j].op@ == op);
                            } else {
                                assert(now[j + 1].op@ == op);
                            }
                        }
                    }
                }
            },
        }
    }
    ranked
}

/// The facts behind a list of references.
pub open spec fn facts_of(claims: Seq<&ClaimFacts>) -> Seq<ClaimFacts> {
    Seq::new(claims.len(), |i: int| *claims[i])
}

/// Both lists name the same operator at `j`.
pub open spec fn same_op(a: Seq<Rejection>, b: Seq<Rejection>, j: int) -> bool {
    j < a.len() && j < b.len() && a[j].op@ == b[j].op@
}

/// There is one ranking of a table.
pub proof fn law_ranking_unique(
    a: Seq<Rejection>,
    b: Seq<Rejection>,
    table: Map<Seq<char>, Refusals>,
    k: int,
)
    requires
        is_ranking(a, table),
        is_ranking(b, table),
        0 <= k < a.len(),
    ensures
        k < b.len(),
        a[k].op@ == b[k].op@,
        refusals_of(a[k]) == refusals_of(b[k]),
    decreases k,
{
    assert forall|j: int| 0 <= j < k implies #[trigger] same_op(a, b, j) by {
        law_ranking_unique(a, b, table, j);
    }
    lemma_found_at(a, b, table, k);
    let x = choose|x: int| k <= x < b.len() && (#[trigger] b[x]).op@ == a[k].op@;
    if x != k {
        assert forall|j: int| 0 <= j < k implies #[trigger] same_op(b, a, j) by {
            assert(same_op(a, b, j));
        }
        lemma_found_at(b, a, table, k);
        let y = choose|y: int| k <= y < a.len() && (#[trigger] a[y]).op@ == b[k].op@;
        assert(ranks_before(b[k], b[x]));
        assert(refusals_of(b[x]) == refusals_of(a[k]));
        assert(refusals_of(a[y]) == refusals_of(b[k]));
        if y != k {
            assert(ranks_before(a[k], a[y]));
            if a[k].count == a[y].count {
                lemma_lex_transitive(a[k].op@, a[y].op@, a[k].op@);
                crate::lex::lemma_lex_irreflexive(a[k].op@);
            }
        } else {
            crate::lex::lemma_lex_irreflexive(a[k].op@);
        }
    }
}

proof fn lemma_found_at(
    a: Seq<Rejection>,
    b: Seq<Rejection>,
    table: Map<Seq<char>, Refusals>,
    k: int,
)
    requires
        is_ranking(a, table),
        is_ranking(b, table),
        0 <= k < a.len(),
        forall|j: int| 0 <= j < k ==> #[trigger] same_op(a, b, j),
    ensures
        exists|x: int| k <= x < b.len() && (#[trigger] b[x]).op@ == a[k].op@,
{
    assert(table.contains_key(a[k].op@));
    assert(lists_op(b, a[k].op@));
    let x = choose|x: int| 0 <= x < b.len() && (#[trigger] b[x]).op@ == a[k].op@;
    if x < k {
        assert(same_op(a, b, x));
        assert(ranks_before(a[x], a[k]));
        assert(table[a[x].op@] == refusals_of(a[x]));
        assert(table[a[k].op@] == refusals_of(a[k]));
        crate::lex::lemma_lex_irreflexive(a[k].op@);
    }
}

} // verus!

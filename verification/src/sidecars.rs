//! What a plan needs to know of a graph beside its snapshot: classified node facts and initializer
//! bytes, both read over the ABI.

use std::collections::HashMap;
use std::sync::Arc;

use vstd::hash_map::StringHashMap;
use vstd::prelude::*;

use crate::engine::{InitData, InitModel, NodeAttributes};
use crate::init_data::{data_view, layout_of, snapshot_initializer_data};
use crate::registry::CompileShapeSafety;
use crate::snapshot::{shot_of, well_formed, OrtGraphSnapshot, Shot, SubgraphEntry};
use crate::text::{decimal, decimal_text, join2, quoted, quoted_text, same_text};

verus! {

broadcast use vstd::std_specs::hash::group_hash_axioms;

/// What the registry and the attributes say of one node.
pub struct NodeFacts {
    pub shape_safety: CompileShapeSafety,
    pub uses_float64: bool,
    pub attributes: Arc<NodeAttributes>,
}

impl NodeFacts {
    pub fn share(&self) -> (copy: Self)
        ensures
            copy == *self,
    {
        NodeFacts {
            shape_safety: self.shape_safety,
            uses_float64: self.uses_float64,
            attributes: self.attributes.clone(),
        }
    }
}

/// The bytes of an initializer: skipped where it has no value, absent for a null pointer.
pub enum RawInitBytes {
    Skipped,
    Read(Option<Arc<Vec<u8>>>),
    Failed(String),
}

pub struct RawInitializer {
    pub name: Result<String, String>,
    pub bytes: RawInitBytes,
}

pub struct RawSideSubgraph {
    pub attribute: String,
    pub sidecars: RawSidecars,
}

pub struct RawSideNode {
    pub ort_id: Result<usize, String>,
    pub facts: NodeFacts,
    pub subgraphs: Result<Vec<RawSideSubgraph>, String>,
}

pub struct RawSidecars {
    pub nodes: Result<Vec<RawSideNode>, String>,
    pub initializers: Result<Vec<RawInitializer>, String>,
}

/// An initializer's layout and the bytes behind it.
pub struct SideInit {
    pub layout: InitData,
    pub data: Option<Arc<Vec<u8>>>,
}

pub struct SidecarEntry {
    pub node: u32,
    pub attribute: String,
    pub sidecars: GraphSidecars,
}

/// Facts by node id, initializers by value id, and the same for the bodies of nodes.
pub struct GraphSidecars {
    pub nodes: HashMap<u32, NodeFacts>,
    pub initializers: HashMap<u32, SideInit>,
    pub subgraphs: Vec<SidecarEntry>,
}

#[verifier::ext_equal]
pub ghost struct SideBody {
    pub node: u32,
    pub attribute: Seq<char>,
    pub side: SideModel,
}

#[verifier::ext_equal]
pub ghost struct SideModel {
    pub nodes: Map<u32, NodeFacts>,
    pub initializers: Map<u32, (InitModel, Option<Seq<u8>>)>,
    pub subgraphs: Seq<SideBody>,
}

pub open spec fn init_models(inits: Map<u32, SideInit>) -> Map<u32, (InitModel, Option<Seq<u8>>)> {
    inits.map_values(|init: SideInit| (init.layout@, data_view(init.data)))
}

pub open spec fn side_bodies(entries: Seq<SidecarEntry>) -> Seq<SideBody>
    decreases entries,
{
    if entries.len() == 0 {
        Seq::empty()
    } else {
        side_bodies(entries.drop_last()).push(
            SideBody {
                node: entries.last().node,
                attribute: entries.last().attribute@,
                side: side_model(entries.last().sidecars),
            },
        )
    }
}

pub open spec fn side_model(side: GraphSidecars) -> SideModel
    decreases side,
{
    SideModel {
        nodes: side.nodes@,
        initializers: init_models(side.initializers@),
        subgraphs: side_bodies(side.subgraphs@),
    }
}

/// The last entry of a node's attribute.
pub open spec fn side_index(bodies: Seq<SideBody>, node: u32, attribute: Seq<char>) -> Option<int>
    decreases bodies.len(),
{
    if bodies.len() == 0 {
        None
    } else if bodies.last().node == node && bodies.last().attribute == attribute {
        Some(bodies.len() - 1)
    } else {
        side_index(bodies.drop_last(), node, attribute)
    }
}

/// The entry of a snapshot's node and attribute.
pub open spec fn entry_index(
    entries: Seq<SubgraphEntry>,
    node: u32,
    attribute: Seq<char>,
) -> Option<int>
    decreases entries.len(),
{
    if entries.len() == 0 {
        None
    } else if entries.last().node == node && entries.last().attribute@ == attribute {
        Some(entries.len() - 1)
    } else {
        entry_index(entries.drop_last(), node, attribute)
    }
}

/// The bytes by initializer name; the last of a name counts.
pub open spec fn raw_bytes(
    list: Seq<RawInitializer>,
) -> Result<Map<Seq<char>, Option<Seq<u8>>>, Seq<char>>
    decreases list.len(),
{
    if list.len() == 0 {
        Ok(Map::empty())
    } else {
        match raw_bytes(list.drop_last()) {
            Err(failure) => Err(failure),
            Ok(before) => match list.last().name {
                Err(failure) => Err(failure@),
                Ok(name) => match list.last().bytes {
                    RawInitBytes::Skipped => Ok(before),
                    RawInitBytes::Failed(failure) => Err(failure@),
                    RawInitBytes::Read(data) => Ok(before.insert(name@, data_view(data))),
                },
            },
        }
    }
}

/// The initializers among the first `k` values that have bytes.
pub open spec fn side_inits(
    shot: Shot,
    data: Map<Seq<char>, Option<Seq<u8>>>,
    k: int,
) -> Result<Map<u32, (InitModel, Option<Seq<u8>>)>, Seq<char>>
    decreases k,
{
    if k <= 0 {
        Ok(Map::empty())
    } else {
        match side_inits(shot, data, k - 1) {
            Err(failure) => Err(failure),
            Ok(before) => {
                let id = (k - 1) as u32;
                let value = shot.values[k - 1];
                if shot.initializers.contains(id) && data.contains_key(value.name) {
                    match layout_of(value) {
                        Err(failure) => Err(failure),
                        Ok(layout) => Ok(before.insert(id, (layout, data[value.name]))),
                    }
                } else {
                    Ok(before)
                }
            },
        }
    }
}

/// The initializers of a graph.
pub open spec fn captured_inits(
    shot: Shot,
    list: Result<Vec<RawInitializer>, String>,
) -> Result<Map<u32, (InitModel, Option<Seq<u8>>)>, Seq<char>> {
    match list {
        Err(failure) => Err(failure@),
        Ok(list) => match raw_bytes(list@) {
            Err(failure) => Err(failure),
            Ok(data) => side_inits(shot, data, shot.values.len() as int),
        },
    }
}

/// The sidecars with the bodies of one node.
pub open spec fn side_with_bodies(
    side: SideModel,
    snapshot: OrtGraphSnapshot,
    node: u32,
    list: Seq<RawSideSubgraph>,
) -> Result<SideModel, Seq<char>>
    decreases list,
{
    if list.len() == 0 {
        Ok(side)
    } else {
        match side_with_bodies(side, snapshot, node, list.drop_last()) {
            Err(failure) => Err(failure),
            Ok(before) => {
                let attribute = list.last().attribute@;
                match entry_index(snapshot.subgraphs@, node, attribute) {
                    None => Err("snapshot is missing subgraph "@ + quoted_text(attribute)),
                    Some(i) => match side_captured(
                        list.last().sidecars,
                        *snapshot.subgraphs@[i].snapshot,
                    ) {
                        Err(failure) => Err(failure),
                        Ok(child) => Ok(
                            SideModel {
                                subgraphs: before.subgraphs.push(
                                    SideBody { node, attribute, side: child },
                                ),
                                ..before
                            },
                        ),
                    },
                }
            },
        }
    }
}

/// The sidecars with more nodes.
pub open spec fn side_with_nodes(
    snapshot: OrtGraphSnapshot,
    nodes: Seq<RawSideNode>,
) -> Result<SideModel, Seq<char>>
    decreases nodes,
{
    if nodes.len() == 0 {
        Ok(
            SideModel {
                nodes: Map::empty(),
                initializers: Map::empty(),
                subgraphs: Seq::empty(),
            },
        )
    } else {
        match side_with_nodes(snapshot, nodes.drop_last()) {
            Err(failure) => Err(failure),
            Ok(before) => side_with_node(before, snapshot, nodes.last()),
        }
    }
}

/// The sidecars with one more node.
pub open spec fn side_with_node(
    side: SideModel,
    snapshot: OrtGraphSnapshot,
    node: RawSideNode,
) -> Result<SideModel, Seq<char>>
    decreases node,
{
    match node.ort_id {
        Err(failure) => Err(failure@),
        Ok(ort_id) => if !snapshot.node_by_ort_id@.contains_key(ort_id) {
            Err("snapshot is missing raw node "@ + decimal(ort_id as nat))
        } else {
            let id = snapshot.node_by_ort_id@[ort_id];
            match node.subgraphs {
                Err(failure) => Err(failure@),
                Ok(list) => side_with_bodies(
                    SideModel { nodes: side.nodes.insert(id, node.facts), ..side },
                    snapshot,
                    id,
                    list@,
                ),
            }
        },
    }
}

/// The sidecars of a graph, or the first failure in reading order.
pub open spec fn side_captured(
    raw: RawSidecars,
    snapshot: OrtGraphSnapshot,
) -> Result<SideModel, Seq<char>>
    decreases raw,
{
    match raw.nodes {
        Err(failure) => Err(failure@),
        Ok(nodes) => match side_with_nodes(snapshot, nodes@) {
            Err(failure) => Err(failure),
            Ok(side) => match captured_inits(shot_of(snapshot), raw.initializers) {
                Err(failure) => Err(failure),
                Ok(initializers) => Ok(SideModel { initializers, ..side }),
            },
        },
    }
}

/// Finds the body of a node in a snapshot.
pub(crate) fn find_entry(
    entries: &Vec<SubgraphEntry>,
    node: u32,
    attribute: &str,
) -> (index: Option<usize>)
    ensures
        match index {
            Some(i) => entry_index(entries@, node, attribute@) == Some(i as int) && i
                < entries@.len(),
            None => entry_index(entries@, node, attribute@) is None,
        },
{
    let mut at: usize = entries.len();
    proof {
        assert(entries@.take(at as int) =~= entries@);
    }
    while at > 0
        invariant
            at <= entries@.len(),
            entry_index(entries@, node, attribute@) == entry_index(
                entries@.take(at as int),
                node,
                attribute@,
            ),
        decreases at,
    {
        proof {
            assert(entries@.take(at as int).drop_last() =~= entries@.take(at - 1));
            assert(entries@.take(at as int).last() == entries@[at - 1]);
        }
        at = at - 1;
        if entries[at].node == node && same_text(entries[at].attribute.as_str(), attribute) {
            return Some(at);
        }
    }
    None
}

/// The bytes by name.
struct ByteTable {
    index: StringHashMap<Option<Arc<Vec<u8>>>>,
}

pub open spec fn table_view(
    table: Map<Seq<char>, Option<Arc<Vec<u8>>>>,
) -> Map<Seq<char>, Option<Seq<u8>>> {
    table.map_values(|data: Option<Arc<Vec<u8>>>| data_view(data))
}

fn share_data(data: &Option<Arc<Vec<u8>>>) -> (copy: Option<Arc<Vec<u8>>>)
    ensures
        data_view(copy) == data_view(*data),
{
    match data {
        Some(bytes) => Some(bytes.clone()),
        None => None,
    }
}

proof fn lemma_bytes_fail(list: Seq<RawInitializer>, k: int)
    requires
        0 <= k <= list.len(),
        raw_bytes(list.take(k)) is Err,
    ensures
        raw_bytes(list) == raw_bytes(list.take(k)),
    decreases list.len(),
{
    if k < list.len() {
        assert(list.drop_last().take(k) =~= list.take(k));
        lemma_bytes_fail(list.drop_last(), k);
    } else {
        assert(list.take(k) =~= list);
    }
}

/// Collects the bytes by initializer name.
fn collect_initializer_bytes(list: &Vec<RawInitializer>) -> (table: Result<ByteTable, String>)
    ensures
        match table {
            Ok(table) => raw_bytes(list@) == Ok::<Map<Seq<char>, Option<Seq<u8>>>, Seq<char>>(
                table_view(table.index@),
            ),
            Err(failure) => raw_bytes(list@) == Err::<
                Map<Seq<char>, Option<Seq<u8>>>,
                Seq<char>,
            >(failure@),
        },
{
    let mut index: StringHashMap<Option<Arc<Vec<u8>>>> = StringHashMap::new();
    let mut at: usize = 0;
    proof {
        assert(list@.take(0) =~= Seq::<RawInitializer>::empty());
        assert(table_view(index@) =~= Map::<Seq<char>, Option<Seq<u8>>>::empty());
    }
    while at < list.len()
        invariant
            at <= list@.len(),
            raw_bytes(list@.take(at as int)) == Ok::<
                Map<Seq<char>, Option<Seq<u8>>>,
                Seq<char>,
            >(table_view(index@)),
        decreases list@.len() - at,
    {
        proof {
            assert(list@.take(at + 1).drop_last() =~= list@.take(at as int));
            assert(list@.take(at + 1).last() == list@[at as int]);
        }
        match &list[at].name {
            Err(failure) => {
                proof {
                    lemma_bytes_fail(list@, at + 1);
                }
                return Err(failure.clone());
            },
            Ok(name) => match &list[at].bytes {
                RawInitBytes::Skipped => {},
                RawInitBytes::Failed(failure) => {
                    proof {
                        lemma_bytes_fail(list@, at + 1);
                    }
                    return Err(failure.clone());
                },
                RawInitBytes::Read(data) => {
                    let ghost before = index@;
                    let copy: Option<Arc<Vec<u8>>> = share_data(data);
                    index.insert(name.clone(), copy);
                    proof {
                        assert(table_view(index@) =~= table_view(before).insert(
                            name@,
                            data_view(*data),
                        ));
                    }
                },
            },
        }
        at = at + 1;
    }
    proof {
        assert(list@.take(at as int) =~= list@);
    }
    Ok(ByteTable { index })
}

proof fn lemma_inits_fail(shot: Shot, data: Map<Seq<char>, Option<Seq<u8>>>, k: int, n: int)
    requires
        0 <= k <= n,
        side_inits(shot, data, k) is Err,
    ensures
        side_inits(shot, data, n) == side_inits(shot, data, k),
    decreases n,
{
    if k < n {
        lemma_inits_fail(shot, data, k, n - 1);
    }
}

impl GraphSidecars {
    fn capture_initializers(
        list: &Result<Vec<RawInitializer>, String>,
        snapshot: &OrtGraphSnapshot,
    ) -> (inits: Result<HashMap<u32, SideInit>, String>)
        requires
            well_formed(*snapshot),
        ensures
            match inits {
                Ok(map) => captured_inits(shot_of(*snapshot), *list) == Ok::<
                    Map<u32, (InitModel, Option<Seq<u8>>)>,
                    Seq<char>,
                >(init_models(map@)),
                Err(failure) => captured_inits(shot_of(*snapshot), *list) == Err::<
                    Map<u32, (InitModel, Option<Seq<u8>>)>,
                    Seq<char>,
                >(failure@),
            },
    {
        let ghost shot = shot_of(*snapshot);
        match list {
            Err(failure) => Err(failure.clone()),
            Ok(items) => match collect_initializer_bytes(items) {
                Err(failure) => Err(failure),
                Ok(table) => {
                    let ghost data = table_view(table.index@);
                    let mut map: HashMap<u32, SideInit> = HashMap::new();
                    let mut at: usize = 0;
                    proof {
                        assert(init_models(map@) =~= Map::<
                            u32,
                            (InitModel, Option<Seq<u8>>),
                        >::empty());
                    }
                    while at < snapshot.values.len()
                        invariant
                            at <= snapshot.values@.len(),
                            well_formed(*snapshot),
                            shot == shot_of(*snapshot),
                            data == table_view(table.index@),
                            side_inits(shot, data, at as int) == Ok::<
                                Map<u32, (InitModel, Option<Seq<u8>>)>,
                                Seq<char>,
                            >(init_models(map@)),
                            *list == Ok::<Vec<RawInitializer>, String>(*items),
                            raw_bytes(items@) == Ok::<
                                Map<Seq<char>, Option<Seq<u8>>>,
                                Seq<char>,
                            >(data),
                        decreases snapshot.values@.len() - at,
                    {
                        let id: u32 = at as u32;
                        let name: &str = snapshot.values[at].name.as_str();
                        if snapshot.initializers.contains_key(&id) {
                            match table.index.get(name) {
                                Some(bytes) => {
                                    match snapshot_initializer_data(snapshot, id) {
                                        Err(failure) => {
                                            proof {
                                                lemma_inits_fail(
                                                    shot,
                                                    data,
                                                    at + 1,
                                                    shot.values.len() as int,
                                                );
                                            }
                                            return Err(failure);
                                        },
                                        Ok(layout) => {
                                            let ghost before = map@;
                                            let copy: Option<Arc<Vec<u8>>> = share_data(bytes);
                                            map.insert(id, SideInit { layout, data: copy });
                                            proof {
                                                assert(init_models(map@) =~= init_models(
                                                    before,
                                                ).insert(id, (layout@, data[name@])));
                                            }
                                        },
                                    }
                                },
                                None => {},
                            }
                        }
                        at = at + 1;
                    }
                    Ok(map)
                },
            },
        }
    }

    fn capture_bodies(
        &mut self,
        snapshot: &OrtGraphSnapshot,
        node: u32,
        list: &Vec<RawSideSubgraph>,
    ) -> (outcome: Result<(), String>)
        requires
            well_formed(*snapshot),
        ensures
            match outcome {
                Ok(_) => side_with_bodies(side_model(*old(self)), *snapshot, node, list@) == Ok::<
                    SideModel,
                    Seq<char>,
                >(side_model(*final(self))),
                Err(failure) => side_with_bodies(side_model(*old(self)), *snapshot, node, list@)
                    == Err::<SideModel, Seq<char>>(failure@),
            },
        decreases *list,
    {
        let ghost start = side_model(*self);
        let mut at: usize = 0;
        proof {
            assert(list@.take(0) =~= Seq::<RawSideSubgraph>::empty());
        }
        while at < list.len()
            invariant
                at <= list@.len(),
                well_formed(*snapshot),
                start == side_model(*old(self)),
                side_with_bodies(start, *snapshot, node, list@.take(at as int)) == Ok::<
                    SideModel,
                    Seq<char>,
                >(side_model(*self)),
            decreases list@.len() - at,
        {
            proof {
                assert(list@.take(at + 1).drop_last() =~= list@.take(at as int));
                assert(list@.take(at + 1).last() == list@[at as int]);
                lemma_entry_well_formed(snapshot.subgraphs@);
            }
            let attribute: &str = list[at].attribute.as_str();
            match find_entry(&snapshot.subgraphs, node, attribute) {
                None => {
                    proof {
                        lemma_side_bodies_fail(start, *snapshot, node, list@, at + 1);
                    }
                    return Err(
                        join2("snapshot is missing subgraph ", quoted(attribute).as_str()),
                    );
                },
                Some(i) => match GraphSidecars::capture(
                    &list[at].sidecars,
                    &snapshot.subgraphs[i].snapshot,
                ) {
                    Err(failure) => {
                        proof {
                            lemma_side_bodies_fail(start, *snapshot, node, list@, at + 1);
                        }
                        return Err(failure);
                    },
                    Ok(child) => {
                        let ghost before = self.subgraphs@;
                        let ghost held = side_model(*self);
                        self.subgraphs.push(
                            SidecarEntry { node, attribute: attribute.to_owned(), sidecars: child },
                        );
                        proof {
                            assert(self.subgraphs@.drop_last() =~= before);
                            assert(side_model(*self) =~= (SideModel {
                                subgraphs: held.subgraphs.push(
                                    SideBody {
                                        node,
                                        attribute: attribute@,
                                        side: side_model(child),
                                    },
                                ),
                                ..held
                            }));
                        }
                    },
                },
            }
            at = at + 1;
        }
        proof {
            assert(list@.take(at as int) =~= list@);
        }
        Ok(())
    }

    fn capture_nodes(
        nodes: &Vec<RawSideNode>,
        snapshot: &OrtGraphSnapshot,
    ) -> (side: Result<GraphSidecars, String>)
        requires
            well_formed(*snapshot),
        ensures
            match side {
                Ok(side) => side_with_nodes(*snapshot, nodes@) == Ok::<SideModel, Seq<char>>(
                    side_model(side),
                ),
                Err(failure) => side_with_nodes(*snapshot, nodes@) == Err::<SideModel, Seq<char>>(
                    failure@,
                ),
            },
        decreases *nodes,
    {
        let mut side = GraphSidecars {
            nodes: HashMap::new(),
            initializers: HashMap::new(),
            subgraphs: Vec::new(),
        };
        let mut at: usize = 0;
        proof {
            assert(nodes@.take(0) =~= Seq::<RawSideNode>::empty());
            assert(side_model(side).initializers =~= Map::<
                u32,
                (InitModel, Option<Seq<u8>>),
            >::empty());
        }
        while at < nodes.len()
            invariant
                at <= nodes@.len(),
                well_formed(*snapshot),
                side_with_nodes(*snapshot, nodes@.take(at as int)) == Ok::<SideModel, Seq<char>>(
                    side_model(side),
                ),
            decreases nodes@.len() - at,
        {
            proof {
                assert(nodes@.take(at + 1).drop_last() =~= nodes@.take(at as int));
                assert(nodes@.take(at + 1).last() == nodes@[at as int]);
            }
            match side.capture_node(&nodes[at], snapshot) {
                Err(failure) => {
                    proof {
                        lemma_side_nodes_fail(*snapshot, nodes@, at + 1);
                    }
                    return Err(failure);
                },
                Ok(_) => {},
            }
            at = at + 1;
        }
        proof {
            assert(nodes@.take(at as int) =~= nodes@);
        }
        Ok(side)
    }

    fn capture_node(&mut self, node: &RawSideNode, snapshot: &OrtGraphSnapshot) -> (outcome: Result<
        (),
        String,
    >)
        requires
            well_formed(*snapshot),
        ensures
            match outcome {
                Ok(_) => side_with_node(side_model(*old(self)), *snapshot, *node) == Ok::<
                    SideModel,
                    Seq<char>,
                >(side_model(*final(self))),
                Err(failure) => side_with_node(side_model(*old(self)), *snapshot, *node) == Err::<
                    SideModel,
                    Seq<char>,
                >(failure@),
            },
        decreases *node,
    {
        let ort_id: usize = match &node.ort_id {
            Err(failure) => {
                return Err(failure.clone());
            },
            Ok(id) => *id,
        };
        let id: u32 = match snapshot.node_by_ort_id.get(&ort_id) {
            None => {
                return Err(
                    join2("snapshot is missing raw node ", decimal_text(ort_id as u64).as_str()),
                );
            },
            Some(id) => *id,
        };
        let ghost before = side_model(*self);
        self.nodes.insert(id, node.facts.share());
        proof {
            assert(side_model(*self) =~= (SideModel {
                nodes: before.nodes.insert(id, node.facts),
                ..before
            }));
        }
        match &node.subgraphs {
            Err(failure) => Err(failure.clone()),
            Ok(list) => self.capture_bodies(snapshot, id, list),
        }
    }

    /// Matches what was read beside a graph to the ids of its snapshot.
    pub fn capture(raw: &RawSidecars, snapshot: &OrtGraphSnapshot) -> (side: Result<
        GraphSidecars,
        String,
    >)
        requires
            well_formed(*snapshot),
        ensures
            match side {
                Ok(side) => side_captured(*raw, *snapshot) == Ok::<SideModel, Seq<char>>(
                    side_model(side),
                ),
                Err(failure) => side_captured(*raw, *snapshot) == Err::<SideModel, Seq<char>>(
                    failure@,
                ),
            },
        decreases *raw,
    {
        match &raw.nodes {
            Err(failure) => Err(failure.clone()),
            Ok(nodes) => match GraphSidecars::capture_nodes(nodes, snapshot) {
                Err(failure) => Err(failure),
                Ok(side) => match GraphSidecars::capture_initializers(
                    &raw.initializers,
                    snapshot,
                ) {
                    Err(failure) => Err(failure),
                    Ok(initializers) => Ok(
                        GraphSidecars {
                            nodes: side.nodes,
                            initializers,
                            subgraphs: side.subgraphs,
                        },
                    ),
                },
            },
        }
    }
}

/// Every body of a well-formed snapshot is well formed.
pub proof fn lemma_entry_well_formed(entries: Seq<SubgraphEntry>)
    requires
        crate::snapshot::entries_well_formed(entries),
    ensures
        forall|i: int|
            0 <= i < entries.len() ==> well_formed(*(#[trigger] entries[i]).snapshot),
    decreases entries.len(),
{
    if entries.len() > 0 {
        let front = entries.drop_last();
        lemma_entry_well_formed(front);
        assert forall|i: int| 0 <= i < entries.len() implies well_formed(
            *(#[trigger] entries[i]).snapshot,
        ) by {
            if i < front.len() {
                assert(front[i] == entries[i]);
            }
        }
    }
}

proof fn lemma_side_bodies_fail(
    side: SideModel,
    snapshot: OrtGraphSnapshot,
    node: u32,
    list: Seq<RawSideSubgraph>,
    k: int,
)
    requires
        0 <= k <= list.len(),
        side_with_bodies(side, snapshot, node, list.take(k)) is Err,
    ensures
        side_with_bodies(side, snapshot, node, list) == side_with_bodies(
            side,
            snapshot,
            node,
            list.take(k),
        ),
    decreases list.len(),
{
    if k < list.len() {
        assert(list.drop_last().take(k) =~= list.take(k));
        lemma_side_bodies_fail(side, snapshot, node, list.drop_last(), k);
    } else {
        assert(list.take(k) =~= list);
    }
}

proof fn lemma_side_nodes_fail(snapshot: OrtGraphSnapshot, nodes: Seq<RawSideNode>, k: int)
    requires
        0 <= k <= nodes.len(),
        side_with_nodes(snapshot, nodes.take(k)) is Err,
    ensures
        side_with_nodes(snapshot, nodes) == side_with_nodes(snapshot, nodes.take(k)),
    decreases nodes.len(),
{
    if k < nodes.len() {
        assert(nodes.drop_last().take(k) =~= nodes.take(k));
        lemma_side_nodes_fail(snapshot, nodes.drop_last(), k);
    } else {
        assert(nodes.take(k) =~= nodes);
    }
}

} // verus!

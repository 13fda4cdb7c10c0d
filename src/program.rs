//! Programs: the serialized form, and the loaded, runnable form with its data-flow store.
use vstd::prelude::*;
use crate::class::{Class, ProtoClass};
use crate::module::{full_key, is_prefix, Module, ModulePath};
use crate::node::{
    node_class_name, AbsoluteNodeId, Node, NodeBranchId, NodeId, NodeInfo, NodeStorage, NodeView,
};
use crate::object::{from_text_view, Object, ObjectError, ObjectView};
use crate::socket::{Connection, InputSocket, InputSocketId};
use crate::stdlib::{variant_read, VariantParseError};
use crate::text::{chars_of, has_prefix};

verus! {

/// ID of a program: its module path.
pub type ProgramId = ModulePath;

/// A program as serialized: nodes with their class, prototype index and variant;
/// declared classes; branch edges; data connections; constant inputs.
#[derive(Debug)]
pub struct Program {
    pub imports: Option<Vec<String>>,
    pub nodes: Vec<(NodeId, NodeInfo)>,
    pub classes: Vec<ProtoClass>,
    pub branch_edges: Vec<(NodeBranchId, NodeId)>,
    pub connections: Vec<Connection>,
    pub const_inputs: Vec<(InputSocketId, String)>,
}

/// Programs to load together, each under its path.
#[derive(Debug)]
pub struct ProgramCollection {
    pub programs: Vec<(ProgramId, Program)>,
}

/// What a slot of the data-flow store holds, as plain values.
pub open spec fn slot_view(o: Option<Object>) -> Option<ObjectView> {
    match o {
        Some(x) => Some(x.view()),
        None => None,
    }
}

/// The value that the last filled connection into input `k` of `node` holds.
pub open spec fn last_conn_value(
    conns: Seq<(Connection, Option<Object>)>,
    node: NodeId,
    k: int,
) -> Option<ObjectView>
    decreases conns.len(),
{
    if conns.len() == 0 {
        None
    } else {
        let c = conns.last();
        if c.0.input.0.0 == node && c.0.input.0.1 == k && c.1 is Some {
            slot_view(c.1)
        } else {
            last_conn_value(conns.drop_last(), node, k)
        }
    }
}

/// The literal of the last constant input for input `k` of `node`.
pub open spec fn last_const(
    consts: Seq<(InputSocketId, String)>,
    node: NodeId,
    k: int,
) -> Option<Seq<char>>
    decreases consts.len(),
{
    if consts.len() == 0 {
        None
    } else {
        let c = consts.last();
        if c.0.0.0 == node && c.0.0.1 == k {
            Some(c.1@)
        } else {
            last_const(consts.drop_last(), node, k)
        }
    }
}

/// A constant input is usable: it is not for this node, or it names no socket of it,
/// or the socket's class parses its literal.
pub open spec fn const_ok(c: (InputSocketId, String), node: NodeId, sockets: Seq<InputSocket>) -> bool {
    c.0.0.0 != node || c.0.0.1 >= sockets.len() || (sockets[c.0.0.1 as int].class.parser is Some
        && from_text_view(sockets[c.0.0.1 as int].class.parser->Some_0, c.1@) is Some)
}

/// Input `k` of `node` is mentioned: by a filled connection, or by a constant input
/// that names one of its sockets.
pub open spec fn mentioned(
    conns: Seq<(Connection, Option<Object>)>,
    consts: Seq<(InputSocketId, String)>,
    node: NodeId,
    n_sockets: int,
    k: int,
) -> bool {
    ||| exists|j: int|
        0 <= j < conns.len() && (#[trigger] conns[j]).0.input.0.0 == node && conns[j].0.input.0.1
            == k && conns[j].1 is Some
    ||| (k < n_sockets && exists|j: int|
        0 <= j < consts.len() && (#[trigger] consts[j]).0.0.0 == node && consts[j].0.0.1 == k)
}

/// What input `k` of `node` receives: a constant input's literal, parsed by the socket's
/// class, wins over connections.
pub open spec fn input_value(
    conns: Seq<(Connection, Option<Object>)>,
    consts: Seq<(InputSocketId, String)>,
    node: NodeId,
    sockets: Seq<InputSocket>,
    k: int,
) -> Option<ObjectView> {
    if k < sockets.len() && last_const(consts, node, k) is Some {
        from_text_view(sockets[k].class.parser->Some_0, last_const(consts, node, k)->Some_0)
    } else {
        last_conn_value(conns, node, k)
    }
}

/// `after` is `before` with the outputs of `node` written: every connection that leaves
/// output `i` of `node`, for `i` below the number of outputs, holds output `i`; no other
/// connection changes, nor anything else.
pub open spec fn outputs_written(
    before: LoadedProgram,
    after: LoadedProgram,
    node: NodeId,
    outputs: Seq<ObjectView>,
) -> bool {
    &&& after.nodes == before.nodes
    &&& after.branch_edges == before.branch_edges
    &&& after.const_inputs == before.const_inputs
    &&& after.connections@.len() == before.connections@.len()
    &&& forall|j: int|
        0 <= j < before.connections@.len() ==> (#[trigger] after.connections@[j]).0
            == before.connections@[j].0
    &&& forall|j: int|
        0 <= j < before.connections@.len() ==> {
            let c = before.connections@[j].0;
            if c.output.0.0 == node && c.output.0.1 < outputs.len() {
                slot_view((#[trigger] after.connections@[j]).1) == Some(
                    outputs[c.output.0.1 as int],
                )
            } else {
                after.connections@[j].1 == before.connections@[j].1
            }
        }
}

/// `v` is what a node gathers as inputs: for each input up to the highest one mentioned,
/// the value it receives, or absence.
pub open spec fn gathered(
    p: LoadedProgram,
    node: NodeId,
    sockets: Seq<InputSocket>,
    v: Seq<Option<ObjectView>>,
) -> bool {
    &&& forall|k: int|
        0 <= k < v.len() ==> #[trigger] v[k] == input_value(
            p.connections@,
            p.const_inputs@,
            node,
            sockets,
            k,
        )
    &&& forall|k: int|
        v.len() <= k ==> !mentioned(p.connections@, p.const_inputs@, node, sockets.len() as int, k)
    &&& v.len() > 0 ==> mentioned(
        p.connections@,
        p.const_inputs@,
        node,
        sockets.len() as int,
        v.len() - 1,
    )
}

/// What a node gathers is determined by the program: two gatherings are equal.
pub proof fn lemma_gathered_unique(
    p: LoadedProgram,
    node: NodeId,
    sockets: Seq<InputSocket>,
    a: Seq<Option<ObjectView>>,
    b: Seq<Option<ObjectView>>,
)
    requires
        gathered(p, node, sockets, a),
        gathered(p, node, sockets, b),
    ensures
        a == b,
{
    if a.len() < b.len() {
        assert(!mentioned(p.connections@, p.const_inputs@, node, sockets.len() as int, b.len() - 1));
    } else if b.len() < a.len() {
        assert(!mentioned(p.connections@, p.const_inputs@, node, sockets.len() as int, a.len() - 1));
    }
    assert forall|k: int| 0 <= k < a.len() implies a[k] == b[k] by {
        assert(a[k] == input_value(p.connections@, p.const_inputs@, node, sockets, k));
        assert(b[k] == input_value(p.connections@, p.const_inputs@, node, sockets, k));
    }
    assert(a =~= b);
}

/// Gathering depends on the sockets' number and parsers alone.
pub proof fn lemma_gathered_same_sockets(
    p: LoadedProgram,
    node: NodeId,
    a: Seq<InputSocket>,
    b: Seq<InputSocket>,
    raw: Seq<Option<ObjectView>>,
)
    requires
        a.len() == b.len(),
        forall|k: int| 0 <= k < a.len() ==> (#[trigger] a[k]).class.parser == b[k].class.parser,
    ensures
        gathered(p, node, a, raw) == gathered(p, node, b, raw),
        forall|c: (InputSocketId, String)| #[trigger] const_ok(c, node, a) == const_ok(c, node, b),
{
    assert forall|k: int| 0 <= k implies #[trigger] input_value(
        p.connections@,
        p.const_inputs@,
        node,
        a,
        k,
    ) == input_value(p.connections@, p.const_inputs@, node, b, k) by {
        if 0 <= k < a.len() {
            assert(a[k].class.parser == b[k].class.parser);
        }
    }
    assert forall|c: (InputSocketId, String)| #[trigger] const_ok(c, node, a) == const_ok(c, node, b) by {
        if c.0.0.1 < a.len() {
            assert(a[c.0.0.1 as int].class.parser == b[c.0.0.1 as int].class.parser);
        }
    }
}

/// Entry `i` of `p`'s nodes is a start node of entry `name`.
pub open spec fn is_start_of(p: LoadedProgram, name: Seq<char>, i: int) -> bool {
    &&& 0 <= i < p.nodes.nodes@.len()
    &&& p.nodes.nodes@[i].1 is Start
    &&& p.nodes.nodes@[i].1->Start_0.name@ == name
}

pub open spec fn has_start(p: LoadedProgram, name: Seq<char>) -> bool {
    exists|i: int| #[trigger] is_start_of(p, name, i)
}

/// `id` is the smallest id of a start node of entry `name` in `p`.
pub open spec fn first_start(p: LoadedProgram, name: Seq<char>, id: NodeId) -> bool {
    &&& exists|i: int| #[trigger] is_start_of(p, name, i) && p.nodes.nodes@[i].0 == id
    &&& forall|j: int| #[trigger] is_start_of(p, name, j) ==> id <= p.nodes.nodes@[j].0
}

/// No two branch edges leave the same node along the same branch.
pub open spec fn edges_unique(e: Seq<(NodeBranchId, NodeId)>) -> bool {
    forall|a: int, b: int|
        0 <= a < b < e.len() ==> !((#[trigger] e[a]).0.0 == (#[trigger] e[b]).0.0 && e[a].0.1
            == e[b].0.1)
}

/// No two constant inputs name the same input socket.
pub open spec fn consts_unique(c: Seq<(InputSocketId, String)>) -> bool {
    forall|a: int, b: int|
        0 <= a < b < c.len() ==> (#[trigger] c[a]).0 != (#[trigger] c[b]).0
}

/// No connection is listed twice.
pub open spec fn connections_unique(c: Seq<Connection>) -> bool {
    forall|a: int, b: int| 0 <= a < b < c.len() ==> #[trigger] c[a] != #[trigger] c[b]
}

/// No node id is listed twice.
pub open spec fn node_ids_unique(n: Seq<(NodeId, NodeInfo)>) -> bool {
    forall|a: int, b: int| 0 <= a < b < n.len() ==> (#[trigger] n[a]).0 != (#[trigger] n[b]).0
}

/// The keyed tables of a program hold each key once, as the maps and sets they stand
/// for do.
pub open spec fn program_unique(p: &Program) -> bool {
    &&& node_ids_unique(p.nodes@)
    &&& edges_unique(p.branch_edges@)
    &&& connections_unique(p.connections@)
    &&& consts_unique(p.const_inputs@)
}

fn check_node_ids(n: &Vec<(NodeId, NodeInfo)>) -> (r: bool)
    ensures
        r == node_ids_unique(n@),
{
    let mut i: usize = 0;
    while i < n.len()
        invariant
            i <= n@.len(),
            forall|a: int, b: int| 0 <= a < b < i ==> (#[trigger] n@[a]).0 != (#[trigger] n@[b]).0,
        decreases n@.len() - i,
    {
        let mut j: usize = 0;
        while j < i
            invariant
                i < n@.len(),
                j <= i,
                forall|a: int| 0 <= a < j ==> (#[trigger] n@[a]).0 != n@[i as int].0,
            decreases i - j,
        {
            if n[j].0 == n[i].0 {
                return false;
            }
            j = j + 1;
        }
        i = i + 1;
    }
    true
}

fn check_edges(e: &Vec<(NodeBranchId, NodeId)>) -> (r: bool)
    ensures
        r == edges_unique(e@),
{
    let mut i: usize = 0;
    while i < e.len()
        invariant
            i <= e@.len(),
            forall|a: int, b: int|
                0 <= a < b < i ==> !((#[trigger] e@[a]).0.0 == (#[trigger] e@[b]).0.0
                    && e@[a].0.1 == e@[b].0.1),
        decreases e@.len() - i,
    {
        let mut j: usize = 0;
        while j < i
            invariant
                i < e@.len(),
                j <= i,
                forall|a: int|
                    0 <= a < j ==> !((#[trigger] e@[a]).0.0 == e@[i as int].0.0 && e@[a].0.1
                        == e@[i as int].0.1),
            decreases i - j,
        {
            if e[j].0.0 == e[i].0.0 && e[j].0.1 == e[i].0.1 {
                return false;
            }
            j = j + 1;
        }
        i = i + 1;
    }
    true
}

fn check_consts(c: &Vec<(InputSocketId, String)>) -> (r: bool)
    ensures
        r == consts_unique(c@),
{
    let mut i: usize = 0;
    while i < c.len()
        invariant
            i <= c@.len(),
            forall|a: int, b: int| 0 <= a < b < i ==> (#[trigger] c@[a]).0 != (#[trigger] c@[b]).0,
        decreases c@.len() - i,
    {
        let mut j: usize = 0;
        while j < i
            invariant
                i < c@.len(),
                j <= i,
                forall|a: int| 0 <= a < j ==> (#[trigger] c@[a]).0 != c@[i as int].0,
            decreases i - j,
        {
            if c[j].0 == c[i].0 {
                return false;
            }
            j = j + 1;
        }
        i = i + 1;
    }
    true
}

fn check_connections(c: &Vec<Connection>) -> (r: bool)
    ensures
        r == connections_unique(c@),
{
    let mut i: usize = 0;
    while i < c.len()
        invariant
            i <= c@.len(),
            forall|a: int, b: int| 0 <= a < b < i ==> #[trigger] c@[a] != #[trigger] c@[b],
        decreases c@.len() - i,
    {
        let mut j: usize = 0;
        while j < i
            invariant
                i < c@.len(),
                j <= i,
                forall|a: int| 0 <= a < j ==> #[trigger] c@[a] != c@[i as int],
            decreases i - j,
        {
            if c[j] == c[i] {
                return false;
            }
            j = j + 1;
        }
        i = i + 1;
    }
    true
}

/// A program loaded for execution.
#[derive(Debug)]
pub struct LoadedProgram {
    pub nodes: NodeStorage,
    pub branch_edges: Vec<(NodeBranchId, NodeId)>,
    pub connections: Vec<(Connection, Option<Object>)>,
    pub const_inputs: Vec<(InputSocketId, String)>,
}

/// Which entry of the branch-edge table leaves `current` along `branch`, if any.
pub open spec fn has_edge(edges: Seq<(NodeBranchId, NodeId)>, current: NodeId, branch: usize) -> bool {
    exists|i: int|
        0 <= i < edges.len() && (#[trigger] edges[i]).0.0 == current && edges[i].0.1 == branch
}

impl LoadedProgram {
    pub open spec fn wf(&self) -> bool {
        &&& self.nodes.wf()
        &&& edges_unique(self.branch_edges@)
        &&& consts_unique(self.const_inputs@)
        &&& forall|j: int|
            0 <= j < self.connections@.len() ==> (#[trigger] self.connections@[j]).0.input.0.1
                < usize::MAX
    }

    /// A loaded program with no nodes: the edges and constant inputs of `p`, and an empty
    /// slot for each of its connections.
    pub fn from_program(p: &Program) -> (r: LoadedProgram)
        requires
            edges_unique(p.branch_edges@),
            consts_unique(p.const_inputs@),
            forall|j: int|
                0 <= j < p.connections@.len() ==> (#[trigger] p.connections@[j]).input.0.1
                    < usize::MAX,
        ensures
            r.wf(),
            r.nodes.nodes@.len() == 0,
            r.branch_edges@ == p.branch_edges@,
            r.const_inputs@ == p.const_inputs@,
            r.connections@.len() == p.connections@.len(),
            forall|j: int|
                0 <= j < r.connections@.len() ==> #[trigger] r.connections@[j] == (
                    p.connections@[j],
                    None::<Object>,
                ),
    {
        let mut edges: Vec<(NodeBranchId, NodeId)> = Vec::new();
        let mut i: usize = 0;
        while i < p.branch_edges.len()
            invariant
                i <= p.branch_edges@.len(),
                edges@ == p.branch_edges@.subrange(0, i as int),
            decreases p.branch_edges@.len() - i,
        {
            edges.push(p.branch_edges[i]);
            i = i + 1;
            assert(edges@ =~= p.branch_edges@.subrange(0, i as int));
        }
        assert(edges@ =~= p.branch_edges@);
        let mut conns: Vec<(Connection, Option<Object>)> = Vec::new();
        let mut i: usize = 0;
        while i < p.connections.len()
            invariant
                i <= p.connections@.len(),
                conns@.len() == i,
                forall|j: int|
                    0 <= j < i ==> #[trigger] conns@[j] == (p.connections@[j], None::<Object>),
                forall|j: int|
                    0 <= j < p.connections@.len() ==> (#[trigger] p.connections@[j]).input.0.1
                        < usize::MAX,
            decreases p.connections@.len() - i,
        {
            conns.push((p.connections[i], None));
            i = i + 1;
        }
        let mut consts: Vec<(InputSocketId, String)> = Vec::new();
        let mut i: usize = 0;
        while i < p.const_inputs.len()
            invariant
                i <= p.const_inputs@.len(),
                consts@ == p.const_inputs@.subrange(0, i as int),
            decreases p.const_inputs@.len() - i,
        {
            consts.push((p.const_inputs[i].0, p.const_inputs[i].1.clone()));
            i = i + 1;
            assert(consts@ =~= p.const_inputs@.subrange(0, i as int));
        }
        assert(consts@ =~= p.const_inputs@);
        LoadedProgram {
            nodes: NodeStorage::new(),
            branch_edges: edges,
            connections: conns,
            const_inputs: consts,
        }
    }

    pub fn get_node(&self, node_id: NodeId) -> (r: Option<&Node>)
        requires
            self.wf(),
        ensures
            match r {
                Some(n) => self.nodes.has(node_id) && *n == self.nodes.nodes@[self.nodes.index_of(
                    node_id,
                )].1,
                None => !self.nodes.has(node_id),
            },
    {
        self.nodes.get_node(node_id)
    }

    /// The start node of the entry `name`: of the start nodes whose name it is, the one
    /// with the smallest id.
    pub fn get_start_node(&self, name: &String) -> (r: Option<NodeId>)
        ensures
            match r {
                Some(id) => exists|i: int|
                    0 <= i < self.nodes.nodes@.len() && (#[trigger] self.nodes.nodes@[i]).0 == id
                        && self.nodes.nodes@[i].1 is Start && self.nodes.nodes@[i].1->Start_0.name@
                        == name@ && forall|j: int|
                        0 <= j < self.nodes.nodes@.len() && (#[trigger] self.nodes.nodes@[j]).1 is Start
                            && self.nodes.nodes@[j].1->Start_0.name@ == name@ ==> id
                            <= self.nodes.nodes@[j].0,
                None => forall|j: int|
                    0 <= j < self.nodes.nodes@.len() ==> !((#[trigger] self.nodes.nodes@[j]).1 is Start
                        && self.nodes.nodes@[j].1->Start_0.name@ == name@),
            },
    {
        let ghost ns = self.nodes.nodes@;
        let mut best: Option<NodeId> = None;
        let ghost mut best_i: int = 0;
        let mut i: usize = 0;
        while i < self.nodes.nodes.len()
            invariant
                ns == self.nodes.nodes@,
                i <= ns.len(),
                match best {
                    Some(id) => 0 <= best_i < i && ns[best_i].0 == id && ns[best_i].1 is Start
                        && ns[best_i].1->Start_0.name@ == name@ && forall|j: int|
                        0 <= j < i && (#[trigger] ns[j]).1 is Start && ns[j].1->Start_0.name@
                            == name@ ==> id <= ns[j].0,
                    None => forall|j: int|
                        0 <= j < i ==> !((#[trigger] ns[j]).1 is Start && ns[j].1->Start_0.name@
                            == name@),
                },
            decreases ns.len() - i,
        {
            let e = &self.nodes.nodes[i];
            if let Node::Start(s) = &e.1 {
                if s.name == *name {
                    match best {
                        Some(b) if b <= e.0 => {},
                        _ => {
                            best = Some(e.0);
                            proof {
                                best_i = i as int;
                            }
                        },
                    }
                }
            }
            i = i + 1;
        }
        best
    }

    pub fn insert_node(&mut self, node: Node) -> (r: Option<NodeId>)
        requires
            old(self).wf(),
        ensures
            final(self).wf(),
            match r {
                Some(id) => !old(self).nodes.has(id) && final(self).nodes.nodes@ == old(
                    self,
                ).nodes.nodes@.push((id, node)),
                None => final(self).nodes.nodes@ == old(self).nodes.nodes@,
            },
    {
        self.nodes.insert_node(node)
    }

    pub fn remove_node(&mut self, node_id: NodeId)
        requires
            old(self).wf(),
        ensures
            final(self).wf(),
            !final(self).nodes.has(node_id),
            forall|k: NodeId| k != node_id ==> #[trigger] final(self).nodes.has(k) == old(
                self,
            ).nodes.has(k),
    {
        self.nodes.remove_node(node_id);
    }

    /// The successor of `current` along `branch`: defined exactly when the branch-edge
    /// table has an entry for that pair.
    pub fn get_next_node(&self, current: NodeId, branch: usize) -> (r: Option<NodeId>)
        ensures
            r is Some <==> has_edge(self.branch_edges@, current, branch),
            r matches Some(n) ==> exists|i: int|
                0 <= i < self.branch_edges@.len() && (#[trigger] self.branch_edges@[i]).0.0
                    == current && self.branch_edges@[i].0.1 == branch && self.branch_edges@[i].1
                    == n,
    {
        let mut i: usize = 0;
        while i < self.branch_edges.len()
            invariant
                i <= self.branch_edges@.len(),
                forall|j: int|
                    0 <= j < i ==> !((#[trigger] self.branch_edges@[j]).0.0 == current
                        && self.branch_edges@[j].0.1 == branch),
            decreases self.branch_edges@.len() - i,
        {
            let e = self.branch_edges[i];
            if e.0.0 == current && e.0.1 == branch {
                return Some(e.1);
            }
            i = i + 1;
        }
        None
    }

    /// Writes output `i` of `node_id` into every connection that leaves that output.
    pub fn set_outputs(&mut self, node_id: NodeId, outputs: &Vec<Object>)
        requires
            old(self).wf(),
        ensures
            final(self).wf(),
            outputs_written(
                *old(self),
                *final(self),
                node_id,
                outputs@.map_values(|o: Object| o.view()),
            ),
    {
        let n = self.connections.len();
        let mut j: usize = 0;
        while j < n
            invariant
                n == self.connections@.len() == old(self).connections@.len(),
                j <= n,
                self.nodes == old(self).nodes,
                self.branch_edges == old(self).branch_edges,
                self.const_inputs == old(self).const_inputs,
                forall|i: int| 0 <= i < n ==> (#[trigger] self.connections@[i]).0 == old(
                    self,
                ).connections@[i].0,
                forall|i: int| j <= i < n ==> (#[trigger] self.connections@[i]).1 == old(
                    self,
                ).connections@[i].1,
                forall|i: int|
                    0 <= i < j ==> {
                        let c = old(self).connections@[i].0;
                        if c.output.0.0 == node_id && c.output.0.1 < outputs@.len() {
                            slot_view((#[trigger] self.connections@[i]).1) == Some(
                                outputs@[c.output.0.1 as int].view(),
                            )
                        } else {
                            self.connections@[i].1 == old(self).connections@[i].1
                        }
                    },
            decreases n - j,
        {
            let c = self.connections[j].0;
            if c.output.0.0 == node_id && c.output.0.1 < outputs.len() {
                let v = outputs[c.output.0.1].copy();
                self.connections.set(j, (c, Some(v)));
            }
            j = j + 1;
        }
    }

    /// Gathers the inputs of a node: from the filled connections into it and from its
    /// constant inputs, each literal parsed by the class of the socket it names. The
    /// result runs from input 0 to the highest input mentioned; unfilled ones are absent.
    pub fn get_inputs(&self, node_id: NodeId, sockets: &Vec<InputSocket>) -> (r: Result<
        Vec<Option<Object>>,
        ObjectError,
    >)
        requires
            self.wf(),
        ensures
            r is Ok <==> forall|i: int|
                0 <= i < self.const_inputs@.len() ==> const_ok(
                    #[trigger] self.const_inputs@[i],
                    node_id,
                    sockets@,
                ),
            r matches Ok(v) ==> gathered(
                *self,
                node_id,
                sockets@,
                v@.map_values(|o: Option<Object>| slot_view(o)),
            ),
    {
        let conns = &self.connections;
        let consts = &self.const_inputs;
        // how far the inputs run
        let mut len: usize = 0;
        let mut j: usize = 0;
        while j < conns.len()
            invariant
                self.wf(),
                conns@ == self.connections@,
                j <= conns@.len(),
                len > 0 ==> mentioned(conns@, consts@, node_id, sockets@.len() as int, len - 1),
                forall|i: int|
                    0 <= i < j && (#[trigger] conns@[i]).0.input.0.0 == node_id && conns@[i].1 is Some
                        ==> conns@[i].0.input.0.1 < len,
            decreases conns@.len() - j,
        {
            let c = &conns[j];
            if c.0.input.0.0 == node_id && c.1.is_some() && c.0.input.0.1 >= len {
                len = c.0.input.0.1 + 1;
            }
            j = j + 1;
        }
        let mut j: usize = 0;
        while j < consts.len()
            invariant
                conns@ == self.connections@,
                consts@ == self.const_inputs@,
                j <= consts@.len(),
                len > 0 ==> mentioned(conns@, consts@, node_id, sockets@.len() as int, len - 1),
                forall|i: int|
                    0 <= i < conns@.len() && (#[trigger] conns@[i]).0.input.0.0 == node_id
                        && conns@[i].1 is Some ==> conns@[i].0.input.0.1 < len,
                forall|i: int|
                    0 <= i < j && (#[trigger] consts@[i]).0.0.0 == node_id && consts@[i].0.0.1
                        < sockets@.len() ==> consts@[i].0.0.1 < len,
            decreases consts@.len() - j,
        {
            let c = &consts[j];
            if c.0.0.0 == node_id && c.0.0.1 < sockets.len() && c.0.0.1 >= len {
                len = c.0.0.1 + 1;
            }
            j = j + 1;
        }
        // fill from connections, later ones over earlier ones
        let mut result: Vec<Option<Object>> = Vec::new();
        let mut k: usize = 0;
        while k < len
            invariant
                k <= len,
                result@.len() == k,
                forall|i: int| 0 <= i < k ==> (#[trigger] result@[i]) is None,
            decreases len - k,
        {
            result.push(None);
            k = k + 1;
        }
        let mut j: usize = 0;
        while j < conns.len()
            invariant
                conns@ == self.connections@,
                j <= conns@.len(),
                result@.len() == len,
                forall|i: int|
                    0 <= i < len ==> slot_view(#[trigger] result@[i]) == last_conn_value(
                        conns@.subrange(0, j as int),
                        node_id,
                        i,
                    ),
                forall|i: int|
                    0 <= i < conns@.len() && (#[trigger] conns@[i]).0.input.0.0 == node_id
                        && conns@[i].1 is Some ==> conns@[i].0.input.0.1 < len,
            decreases conns@.len() - j,
        {
            proof {
                let p = conns@.subrange(0, j + 1);
                assert(p.drop_last() =~= conns@.subrange(0, j as int));
                assert(p.last() == conns@[j as int]);
            }
            let c = &conns[j];
            if c.0.input.0.0 == node_id {
                match &c.1 {
                    Some(o) => {
                        let v = o.copy();
                        result.set(c.0.input.0.1, Some(v));
                    },
                    None => {},
                }
            }
            j = j + 1;
        }
        assert(conns@.subrange(0, conns@.len() as int) =~= conns@);
        // constant inputs over connections
        let mut j: usize = 0;
        while j < consts.len()
            invariant
                consts@ == self.const_inputs@,
                conns@ == self.connections@,
                j <= consts@.len(),
                result@.len() == len,
                forall|i: int| 0 <= i < j ==> const_ok(#[trigger] consts@[i], node_id, sockets@),
                forall|i: int|
                    0 <= i < len ==> slot_view(#[trigger] result@[i]) == input_value(
                        conns@,
                        consts@.subrange(0, j as int),
                        node_id,
                        sockets@,
                        i,
                    ),
                forall|i: int|
                    0 <= i < consts@.len() && (#[trigger] consts@[i]).0.0.0 == node_id
                        && consts@[i].0.0.1 < sockets@.len() ==> consts@[i].0.0.1 < len,
            decreases consts@.len() - j,
        {
            proof {
                let p = consts@.subrange(0, j + 1);
                assert(p.drop_last() =~= consts@.subrange(0, j as int));
                assert(p.last() == consts@[j as int]);
            }
            let c = &consts[j];
            if c.0.0.0 == node_id && c.0.0.1 < sockets.len() {
                let k = c.0.0.1;
                match sockets[k].class.parser {
                    None => {
                        return Err(ObjectError::NoParser);
                    },
                    Some(p) => match Object::from_text(p, c.1.as_str()) {
                        Ok(o) => {
                            result.set(k, Some(o));
                        },
                        Err(e) => {
                            return Err(e);
                        },
                    },
                }
            }
            j = j + 1;
        }
        assert(consts@.subrange(0, consts@.len() as int) =~= consts@);
        proof {
            let vv = result@.map_values(|o: Option<Object>| slot_view(o));
            assert forall|k: int| 0 <= k < vv.len() implies #[trigger] vv[k] == input_value(
                conns@,
                consts@,
                node_id,
                sockets@,
                k,
            ) by {
                assert(vv[k] == slot_view(result@[k]));
            }
        }
        Ok(result)
    }
}

#[derive(Debug, Clone, Copy, PartialEq, Eq, Structural)]
pub enum LoadError {
    /// A declared class cannot be placed: a non-module item is in the way.
    NonModuleSegment,
    /// A program declares the same class twice.
    DuplicateClass,
    /// A program is already loaded under this path.
    DuplicateProgram,
    /// A node names a class that is not in the registry.
    UnknownClass,
    /// A node's prototype index is outside its class's palette.
    PrototypeOutOfRange,
    /// A node's variant does not parse.
    InvalidVariant,
    /// A declared class lists a node id that the program does not have.
    UnknownNode,
    /// A connection names an input index that cannot be stored.
    InvalidSocket,
    /// A node id, a branch edge, a connection or a constant input is listed twice.
    DuplicateKey,
}

/// Everything loaded into an executor: programs by path, and the module tree.
#[derive(Debug)]
pub struct LoadedProgramData {
    pub programs: Vec<(ProgramId, LoadedProgram)>,
    pub modules: Module,
}

/// `after` is `before` with the outputs of node `id` written into the program at its
/// path; the other programs and the module tree are as they were.
pub open spec fn data_written(
    before: LoadedProgramData,
    after: LoadedProgramData,
    id: AbsoluteNodeId,
    outputs: Seq<ObjectView>,
) -> bool {
    &&& after.modules == before.modules
    &&& after.programs@.len() == before.programs@.len()
    &&& forall|k: int|
        0 <= k < before.programs@.len() ==> (#[trigger] after.programs@[k]).0
            == before.programs@[k].0
    &&& forall|k: int|
        0 <= k < before.programs@.len() && full_key(before.programs@[k].0) != full_key(id.0)
            ==> #[trigger] after.programs@[k] == before.programs@[k]
    &&& forall|k: int|
        0 <= k < before.programs@.len() && full_key(before.programs@[k].0) == full_key(id.0)
            ==> outputs_written(
            before.programs@[k].1,
            #[trigger] after.programs@[k].1,
            id.1,
            outputs,
        )
}

/// The key of a class that the program at `path` declares: the program's full key, then
/// the class name.
pub open spec fn class_key(path: ModulePath, name: Seq<char>) -> Seq<Seq<char>> {
    full_key(path).push(name)
}

/// The path of a class declared by the program at `path`.
fn class_path_of(path: &ModulePath, name: &String) -> (r: ModulePath)
    ensures
        full_key(r) == class_key(*path, name@),
        r.segs() == full_key(*path),
{
    let mut segs = crate::text::copy_strings(&path.0);
    let ghost before = segs@;
    proof {
        crate::text::lemma_deep_view_is_map(segs);
    }
    let leaf = path.1.clone();
    segs.push(leaf);
    proof {
        crate::text::lemma_deep_view_push(before, segs, leaf);
    }
    let r = ModulePath(segs, name.clone());
    assert(r.segs() == full_key(*path));
    r
}

/// `v` is a node built for `info` from the registry `m`: the class that `info` names
/// stands in `m` with a prototype at `info.idx`, `v` is of that prototype's class, and
/// `v` is whatever `info.variant` reads as for that prototype.
pub open spec fn instantiates(m: Module, info: NodeInfo, v: NodeView) -> bool {
    exists|i: int|
        0 <= i < m.items@.len() && #[trigger] m.key(i) == full_key(info.class) && info.idx
            < m.items@[i].1.nodes@.len() && node_class_name(v) == node_class_name(
            m.items@[i].1.nodes@[info.idx as int].view(),
        ) && forall|w: NodeView|
            #[trigger] variant_read(m.items@[i].1.nodes@[info.idx as int].view(), info.variant@, w)
                ==> v == w
}

/// `lp` is `program` loaded against the registry `m`: its edges and constant inputs are
/// the program's, each connection has an empty slot, each node id of the program is
/// stored, and each stored node was built for one of the program's entries of its id.
pub open spec fn loaded_from(lp: LoadedProgram, program: &Program, m: Module) -> bool {
    &&& lp.branch_edges@ == program.branch_edges@
    &&& lp.const_inputs@ == program.const_inputs@
    &&& lp.connections@.len() == program.connections@.len()
    &&& forall|j: int|
        0 <= j < lp.connections@.len() ==> #[trigger] lp.connections@[j] == (
            program.connections@[j],
            None::<Object>,
        )
    &&& forall|j: int| 0 <= j < program.nodes@.len() ==> lp.nodes.has(#[trigger] program.nodes@[j].0)
    &&& forall|id: NodeId|
        #[trigger] lp.nodes.has(id) ==> exists|j: int|
            0 <= j < program.nodes@.len() && program.nodes@[j].0 == id && instantiates(
                m,
                #[trigger] program.nodes@[j].1,
                lp.nodes.nodes@[lp.nodes.index_of(id)].1.view(),
            )
}

/// The class that the program at `path` declares as `pc` stands in `m` with its method
/// table: the nodes of `lp` that `pc` lists, in order.
pub open spec fn methods_set(m: Module, path: ModulePath, pc: ProtoClass, lp: LoadedProgram) -> bool {
    exists|i: int|
        0 <= i < m.items@.len() && #[trigger] m.key(i) == class_key(path, pc.name@)
            && m.items@[i].1.name@ == pc.name@ && m.items@[i].1.obj_from_str is None
            && m.items@[i].1.nodes@.len() == pc.nodes@.len() && forall|x: int|
            0 <= x < pc.nodes@.len() ==> lp.nodes.has(pc.nodes@[x]) && (
            #[trigger] m.items@[i].1.nodes@[x]).view() == lp.nodes.nodes@[lp.nodes.index_of(
                pc.nodes@[x],
            )].1.view()
}

/// The program at `id`'s path stores the node `v` under `id`'s node id.
pub open spec fn stored(d: LoadedProgramData, id: AbsoluteNodeId, v: NodeView) -> bool {
    exists|i: int|
        0 <= i < d.programs@.len() && full_key(#[trigger] d.programs@[i].0) == full_key(id.0)
            && d.programs@[i].1.nodes.has(id.1) && d.programs@[i].1.nodes.nodes@[d.programs@[
            i
        ].1.nodes.index_of(id.1)].1.view() == v
}

/// `after` has the programs of `before`, under the same paths, with the same node tables,
/// and the same module tree.
pub open spec fn same_nodes(before: LoadedProgramData, after: LoadedProgramData) -> bool {
    &&& after.modules == before.modules
    &&& after.programs@.len() == before.programs@.len()
    &&& forall|k: int|
        0 <= k < before.programs@.len() ==> (#[trigger] after.programs@[k]).0 == before.programs@[k].0
            && after.programs@[k].1.nodes == before.programs@[k].1.nodes
}

pub proof fn lemma_written_same_nodes(
    before: LoadedProgramData,
    after: LoadedProgramData,
    id: AbsoluteNodeId,
    outputs: Seq<ObjectView>,
)
    requires
        data_written(before, after, id, outputs),
    ensures
        same_nodes(before, after),
{
    assert forall|k: int| 0 <= k < before.programs@.len() implies (
    #[trigger] after.programs@[k]).0 == before.programs@[k].0 && after.programs@[k].1.nodes
        == before.programs@[k].1.nodes by {
        if full_key(before.programs@[k].0) == full_key(id.0) {
            assert(outputs_written(before.programs@[k].1, after.programs@[k].1, id.1, outputs));
        }
    }
}

/// Key `i` of `keys` is new to `m` and to the keys before it, so that its class is placed
/// there.
pub open spec fn fresh_key(m: Module, keys: Seq<Seq<Seq<char>>>, i: int) -> bool {
    &&& !m.occupied(keys[i])
    &&& forall|i2: int| 0 <= i2 < i ==> !is_prefix(keys[i], #[trigger] keys[i2])
}

pub open spec fn keys_of(classes: Seq<(ModulePath, Class)>) -> Seq<Seq<Seq<char>>> {
    classes.map_values(|c: (ModulePath, Class)| full_key(c.0))
}

/// Loading `program` under `path` fails with `e` for the reason `e` names, as the loaded
/// data `d` shows it afterwards.
pub open spec fn load_fails(d: LoadedProgramData, path: ModulePath, program: &Program, e: LoadError) -> bool {
    match e {
        LoadError::DuplicateProgram => d.has_program(full_key(path)),
        LoadError::DuplicateKey => !program_unique(program),
        LoadError::InvalidSocket => exists|j: int|
            0 <= j < program.connections@.len() && (#[trigger] program.connections@[j]).input.0.1
                == usize::MAX,
        LoadError::DuplicateClass => exists|c: int|
            0 <= c < program.classes@.len() && d.modules.occupied(
                class_key(path, (#[trigger] program.classes@[c]).name@),
            ),
        LoadError::NonModuleSegment => d.modules.blocks(full_key(path)),
        LoadError::UnknownClass => exists|j: int|
            0 <= j < program.nodes@.len() && !d.modules.holds(
                full_key((#[trigger] program.nodes@[j]).1.class),
            ),
        LoadError::PrototypeOutOfRange => exists|j: int, i: int|
            0 <= j < program.nodes@.len() && 0 <= i < d.modules.items@.len()
                && #[trigger] d.modules.key(i) == full_key((#[trigger] program.nodes@[j]).1.class)
                && program.nodes@[j].1.idx >= d.modules.items@[i].1.nodes@.len(),
        LoadError::InvalidVariant => exists|j: int, i: int|
            0 <= j < program.nodes@.len() && 0 <= i < d.modules.items@.len()
                && #[trigger] d.modules.key(i) == full_key((#[trigger] program.nodes@[j]).1.class)
                && program.nodes@[j].1.idx < d.modules.items@[i].1.nodes@.len() && forall|
                w: NodeView,
            |
                !#[trigger] variant_read(
                    d.modules.items@[i].1.nodes@[program.nodes@[j].1.idx as int].view(),
                    program.nodes@[j].1.variant@,
                    w,
                ),
        LoadError::UnknownNode => exists|c: int, m: int|
            0 <= c < program.classes@.len() && 0 <= m < program.classes@[c].nodes@.len()
                && forall|j: int|
                0 <= j < program.nodes@.len() ==> (#[trigger] program.nodes@[j]).0
                    != #[trigger] program.classes@[c].nodes@[m],
    }
}

impl LoadedProgramData {
    pub open spec fn wf(&self) -> bool {
        &&& self.modules.wf()
        &&& forall|i: int|
            0 <= i < self.programs@.len() ==> (#[trigger] self.programs@[i]).1.wf()
        &&& forall|i: int, j: int|
            0 <= i < j < self.programs@.len() ==> full_key((#[trigger] self.programs@[i]).0)
                != full_key((#[trigger] self.programs@[j]).0)
    }

    pub open spec fn has_program(&self, path: Seq<Seq<char>>) -> bool {
        exists|i: int|
            0 <= i < self.programs@.len() && full_key(#[trigger] self.programs@[i].0) == path
    }

    pub fn new() -> (r: LoadedProgramData)
        ensures
            r.wf(),
            r.programs@.len() == 0,
            r.modules.items@.len() == 0,
    {
        LoadedProgramData { programs: Vec::new(), modules: Module::new() }
    }

    fn find_program(&self, path: &ModulePath) -> (r: Option<usize>)
        requires
            self.wf(),
        ensures
            match r {
                Some(i) => i < self.programs@.len() && full_key(self.programs@[i as int].0)
                    == full_key(*path) && forall|j: int|
                    0 <= j < self.programs@.len() && full_key(#[trigger] self.programs@[j].0)
                        == full_key(*path) ==> j == i,
                None => !self.has_program(full_key(*path)),
            },
    {
        let mut i: usize = 0;
        while i < self.programs.len()
            invariant
                self.wf(),
                i <= self.programs@.len(),
                forall|j: int|
                    0 <= j < i ==> full_key(#[trigger] self.programs@[j].0) != full_key(*path),
            decreases self.programs@.len() - i,
        {
            if self.programs[i].0.same_as(path) {
                assert forall|j: int|
                    0 <= j < self.programs@.len() && full_key(#[trigger] self.programs@[j].0)
                        == full_key(*path) implies j == i by {
                    if j < i {
                        assert(full_key(self.programs@[j].0) != full_key(self.programs@[i as int].0));
                    } else if j > i {
                        assert(full_key(self.programs@[i as int].0) != full_key(self.programs@[j].0));
                    }
                }
                return Some(i);
            }
            proof {
                let q = self.programs@[i as int].0;
                if full_key(q) == full_key(*path) {
                    assert(full_key(q).drop_last() =~= q.segs());
                    assert(full_key(*path).drop_last() =~= path.segs());
                    assert(full_key(q).last() == q.leaf());
                }
            }
            i = i + 1;
        }
        None
    }

    /// Places each class of a plugin in the module tree.
    pub fn load_plugin(&mut self, classes: Vec<(ModulePath, Class)>) -> (r: Result<(), LoadError>)
        requires
            old(self).wf(),
        ensures
            final(self).wf(),
            final(self).programs == old(self).programs,
            r is Ok ==> forall|i: int|
                0 <= i < classes@.len() ==> final(self).modules.occupied(
                    full_key(#[trigger] classes@[i].0),
                ),
            r is Ok ==> forall|i: int|
                0 <= i < classes@.len() && #[trigger] fresh_key(old(self).modules, keys_of(classes@), i)
                    ==> exists|j: int|
                    0 <= j < final(self).modules.items@.len() && final(self).modules.key(j)
                        == full_key(classes@[i].0) && final(self).modules.items@[j].1 == classes@[i].1,
            r is Err ==> r == Err::<(), LoadError>(LoadError::NonModuleSegment) && exists|i: int|
                0 <= i < classes@.len() && final(self).modules.blocks(
                    (#[trigger] classes@[i].0).segs(),
                ),
    {
        let ghost orig = classes@;
        let mut rest = classes;
        while rest.len() > 0
            invariant
                self.wf(),
                self.programs == old(self).programs,
                orig == classes@,
                rest@.len() <= orig.len(),
                rest@ == orig.subrange(orig.len() - rest@.len(), orig.len() as int),
                self.modules.items@.len() >= old(self).modules.items@.len(),
                forall|j: int|
                    0 <= j < old(self).modules.items@.len() ==> #[trigger] self.modules.items@[j]
                        == old(self).modules.items@[j],
                forall|j: int|
                    old(self).modules.items@.len() <= j < self.modules.items@.len() ==> exists|i2: int|
                        0 <= i2 < orig.len() - rest@.len() && #[trigger] self.modules.key(j)
                            == full_key(orig[i2].0),
                forall|i: int|
                    0 <= i < orig.len() - rest@.len() && #[trigger] fresh_key(
                        old(self).modules,
                        keys_of(orig),
                        i,
                    ) ==> exists|j: int|
                        0 <= j < self.modules.items@.len() && self.modules.key(j) == full_key(
                            orig[i].0,
                        ) && self.modules.items@[j].1 == orig[i].1,
                forall|j: int|
                    0 <= j < orig.len() - rest@.len() ==> self.modules.occupied(
                        full_key(#[trigger] orig[j].0),
                    ),
            decreases rest@.len(),
        {
            let ghost done = orig.len() - rest@.len();
            let ghost m0 = self.modules;
            let (path, class) = rest.remove(0);
            assert(orig[done] == (path, class));
            proof {
                if fresh_key(old(self).modules, keys_of(orig), done) {
                    assert forall|w: int| 0 <= w < m0.items@.len() implies !is_prefix(
                        full_key(path),
                        #[trigger] m0.key(w),
                    ) by {
                        assert(keys_of(orig)[done] == full_key(path));
                        if w < old(self).modules.items@.len() {
                            assert(m0.key(w) == old(self).modules.key(w));
                        } else {
                            let i2 = choose|i2: int|
                                0 <= i2 < done && #[trigger] m0.key(w) == full_key(orig[i2].0);
                            assert(keys_of(orig)[i2] == full_key(orig[i2].0));
                        }
                    }
                    assert(!m0.occupied(full_key(path)));
                }
            }
            match self.modules.insert(path, class) {
                Ok(()) => {
                    proof {
                        assert forall|j: int|
                            0 <= j < old(self).modules.items@.len() implies #[trigger] self.modules.items@[j]
                            == old(self).modules.items@[j] by {
                            assert(self.modules.items@[j] == m0.items@[j]);
                        }
                        assert forall|j: int|
                            old(self).modules.items@.len() <= j < self.modules.items@.len() implies exists|i2: int|
                            0 <= i2 < done + 1 && #[trigger] self.modules.key(j) == full_key(orig[i2].0) by {
                            if j < m0.items@.len() {
                                assert(self.modules.key(j) == m0.key(j));
                            } else {
                                assert(self.modules.key(j) == full_key(orig[done].0));
                            }
                        }
                        assert forall|i: int|
                            0 <= i < done + 1 && #[trigger] fresh_key(
                                old(self).modules,
                                keys_of(orig),
                                i,
                            ) implies exists|j: int|
                            0 <= j < self.modules.items@.len() && self.modules.key(j) == full_key(
                                orig[i].0,
                            ) && self.modules.items@[j].1 == orig[i].1 by {
                            if i < done {
                                let j = choose|j: int|
                                    0 <= j < m0.items@.len() && m0.key(j) == full_key(orig[i].0)
                                        && m0.items@[j].1 == orig[i].1;
                                assert(self.modules.items@[j] == m0.items@[j]);
                                assert(self.modules.key(j) == m0.key(j));
                            } else {
                                assert(i == done);
                                assert(keys_of(orig)[done] == full_key(path));
                                assert(!m0.occupied(full_key(path)));
                                assert(!m0.blocks(path.segs()));
                                assert(self.modules.items@ == m0.items@.push((path, class)));
                                let n = m0.items@.len() as int;
                                assert(self.modules.items@[n] == (path, class));
                                assert(self.modules.key(n) == full_key(orig[i].0));
                                assert(self.modules.items@[n].1 == orig[i].1);
                            }
                        }
                        assert forall|j: int| 0 <= j < done + 1 implies self.modules.occupied(
                            full_key(#[trigger] orig[j].0),
                        ) by {
                            let k = full_key(orig[j].0);
                            if m0.occupied(k) {
                                let w = choose|w: int|
                                    0 <= w < m0.items@.len() && is_prefix(k, #[trigger] m0.key(w));
                                assert(self.modules.items@[w] == m0.items@[w]);
                                assert(self.modules.key(w) == m0.key(w));
                            } else {
                                assert(j == done);
                                let n = m0.items@.len() as int;
                                assert(self.modules.key(n) == full_key(path));
                                assert(full_key(path).subrange(0, full_key(path).len() as int)
                                    =~= full_key(path));
                            }
                        }
                        assert(rest@ =~= orig.subrange(orig.len() - rest@.len(), orig.len() as int));
                    }
                },
                Err(_) => {
                    proof {
                        let w = choose|w: int|
                            0 <= w < m0.items@.len() && is_prefix(
                                #[trigger] m0.key(w),
                                path.segs(),
                            );
                        assert(self.modules.key(w) == m0.key(w));
                        assert(self.modules.blocks(orig[done].0.segs()));
                    }
                    return Err(LoadError::NonModuleSegment);
                },
            }
        }
        Ok(())
    }

    /// The node that an absolute id names.
    pub fn get_node(&self, node_id: &AbsoluteNodeId) -> (r: Option<&Node>)
        requires
            self.wf(),
        ensures
            r is None <== !self.has_program(full_key(node_id.0)),
            forall|i: int|
                0 <= i < self.programs@.len() && full_key(#[trigger] self.programs@[i].0)
                    == full_key(node_id.0) ==> match r {
                    Some(n) => self.programs@[i].1.nodes.has(node_id.1) && *n
                        == self.programs@[i].1.nodes.nodes@[self.programs@[i].1.nodes.index_of(
                        node_id.1,
                    )].1,
                    None => !self.programs@[i].1.nodes.has(node_id.1),
                },
            r matches Some(n) ==> exists|i: int|
                0 <= i < self.programs@.len() && full_key(#[trigger] self.programs@[i].0)
                    == full_key(node_id.0) && self.programs@[i].1.nodes.has(node_id.1) && *n
                    == self.programs@[i].1.nodes.nodes@[self.programs@[i].1.nodes.index_of(
                    node_id.1,
                )].1,
    {
        match self.find_program(&node_id.0) {
            None => None,
            Some(i) => self.programs[i].1.get_node(node_id.1),
        }
    }

    /// The start node of entry `name` in program `program_id`.
    pub fn get_start_node(&self, program_id: &ProgramId, name: &String) -> (r: Option<
        AbsoluteNodeId,
    >)
        requires
            self.wf(),
        ensures
            r matches Some(a) ==> full_key(a.0) == full_key(*program_id),
            r is None <== !self.has_program(full_key(*program_id)),
            forall|i: int|
                0 <= i < self.programs@.len() && full_key(#[trigger] self.programs@[i].0)
                    == full_key(*program_id) ==> match r {
                    Some(a) => first_start(self.programs@[i].1, name@, a.1),
                    None => !has_start(self.programs@[i].1, name@),
                },
    {
        match self.find_program(program_id) {
            None => None,
            Some(i) => match self.programs[i].1.get_start_node(name) {
                None => {
                    proof {
                        let p = self.programs@[i as int].1;
                        assert forall|j: int| !#[trigger] is_start_of(p, name@, j) by {
                            if is_start_of(p, name@, j) {
                                assert(p.nodes.nodes@[j].1 is Start);
                            }
                        }
                    }
                    None
                },
                Some(id) => {
                    proof {
                        let p = self.programs@[i as int].1;
                        let w = choose|k: int|
                            0 <= k < p.nodes.nodes@.len() && (#[trigger] p.nodes.nodes@[k]).0 == id
                                && p.nodes.nodes@[k].1 is Start && p.nodes.nodes@[k].1->Start_0.name@
                                == name@;
                        assert(is_start_of(p, name@, w));
                        assert forall|j: int| #[trigger] is_start_of(p, name@, j) implies id
                            <= p.nodes.nodes@[j].0 by {
                            assert(p.nodes.nodes@[j].1 is Start);
                        }
                    }
                    Some(
                    AbsoluteNodeId(
                        ModulePath(crate::text::copy_strings(&program_id.0), program_id.1.clone()),
                        id,
                    ),
                )
                },
            },
        }
    }

    /// The successor of a node along a branch, in the same program.
    pub fn get_next_node(&self, node_id: &AbsoluteNodeId, branch: usize) -> (r: Option<
        AbsoluteNodeId,
    >)
        requires
            self.wf(),
        ensures
            !self.has_program(full_key(node_id.0)) ==> r is None,
            forall|i: int|
                0 <= i < self.programs@.len() && full_key(#[trigger] self.programs@[i].0)
                    == full_key(node_id.0) ==> {
                    &&& (r is Some <==> has_edge(
                        self.programs@[i].1.branch_edges@,
                        node_id.1,
                        branch,
                    ))
                    &&& r matches Some(a) ==> exists|e: int|
                        0 <= e < self.programs@[i].1.branch_edges@.len() && (
                        #[trigger] self.programs@[i].1.branch_edges@[e]).0.0 == node_id.1
                            && self.programs@[i].1.branch_edges@[e].0.1 == branch
                            && self.programs@[i].1.branch_edges@[e].1 == a.1
                },
            r matches Some(a) ==> a.id_view().0 == node_id.id_view().0 && a.id_view().1
                == node_id.id_view().1,
    {
        match self.find_program(&node_id.0) {
            None => None,
            Some(i) => match self.programs[i].1.get_next_node(node_id.1, branch) {
                None => None,
                Some(n) => Some(
                    AbsoluteNodeId(
                        ModulePath(crate::text::copy_strings(&node_id.0.0), node_id.0.1.clone()),
                        n,
                    ),
                ),
            },
        }
    }

    /// Writes the outputs of a node into its program's data-flow store.
    pub fn set_outputs(&mut self, node_id: &AbsoluteNodeId, outputs: &Vec<Object>)
        requires
            old(self).wf(),
        ensures
            final(self).wf(),
            data_written(*old(self), *final(self), *node_id, outputs@.map_values(|o: Object| o.view())),
    {
        match self.find_program(&node_id.0) {
            None => {},
            Some(i) => {
                let ghost before = self.programs@;
                let (path, mut prog) = self.programs.remove(i);
                let ghost old_prog = prog;
                prog.set_outputs(node_id.1, outputs);
                self.programs.insert(i, (path, prog));
                proof {
                    assert forall|j: int| 0 <= j < self.programs@.len() && j != i implies
                        #[trigger] self.programs@[j] == before[j] by {}
                    assert(self.programs@[i as int].1 == prog);
                    assert(self.programs@[i as int].0 == before[i as int].0);
                    assert(old_prog == before[i as int].1);
                    assert forall|j: int| 0 <= j < self.programs@.len() implies (
                    #[trigger] self.programs@[j]).1.wf() by {
                        if j != i {
                            assert(self.programs@[j] == before[j]);
                        }
                    }
                    assert forall|a: int, b: int|
                        0 <= a < b < self.programs@.len() implies full_key(
                        (#[trigger] self.programs@[a]).0,
                    ) != full_key((#[trigger] self.programs@[b]).0) by {
                        assert(self.programs@[a].0 == before[a].0);
                        assert(self.programs@[b].0 == before[b].0);
                    }
                }
            },
        }
    }

    /// The inputs of a node, gathered from its program's data-flow store.
    pub fn get_inputs(&self, node_id: &AbsoluteNodeId, sockets: &Vec<InputSocket>) -> (r: Result<
        Vec<Option<Object>>,
        ObjectError,
    >)
        requires
            self.wf(),
        ensures
            !self.has_program(full_key(node_id.0)) ==> (r matches Ok(v) && v@.len() == 0),
            forall|i: int|
                0 <= i < self.programs@.len() && full_key(#[trigger] self.programs@[i].0)
                    == full_key(node_id.0) ==> {
                    let p = self.programs@[i].1;
                    &&& r is Ok <==> forall|j: int|
                        0 <= j < p.const_inputs@.len() ==> const_ok(
                            #[trigger] p.const_inputs@[j],
                            node_id.1,
                            sockets@,
                        )
                    &&& r matches Ok(v) ==> gathered(
                        p,
                        node_id.1,
                        sockets@,
                        v@.map_values(|o: Option<Object>| slot_view(o)),
                    )
                },
    {
        match self.find_program(&node_id.0) {
            None => Ok(Vec::new()),
            Some(i) => self.programs[i].1.get_inputs(node_id.1, sockets),
        }
    }

    pub fn get_class(&self, path: &ModulePath) -> (r: Option<&Class>)
        ensures
            r is None <==> !self.modules.holds(full_key(*path)),
    {
        self.modules.get_class(path)
    }

    /// Loads one program under `path`: declares its classes, instantiates its nodes
    /// from their classes' prototypes, then gives each declared class its method nodes.
    /// Each error comes with the reason it names; where none holds, the load succeeds.
    pub fn load_program(&mut self, path: &ProgramId, program: &Program) -> (r: Result<
        (),
        LoadError,
    >)
        requires
            old(self).wf(),
        ensures
            final(self).wf(),
            r is Ok ==> final(self).has_program(full_key(*path)),
            r is Ok ==> forall|k: int|
                0 <= k < final(self).programs@.len() && full_key(
                    #[trigger] final(self).programs@[k].0,
                ) == full_key(*path) ==> loaded_from(
                    final(self).programs@[k].1,
                    program,
                    old(self).modules,
                ),
            r is Ok ==> forall|c: int|
                0 <= c < program.classes@.len() ==> final(self).modules.holds(
                    class_key(*path, (#[trigger] program.classes@[c]).name@),
                ),
            r is Ok ==> forall|k: int, c: int|
                0 <= k < final(self).programs@.len() && full_key(final(self).programs@[k].0)
                    == full_key(*path) && 0 <= c < program.classes@.len() ==> methods_set(
                    final(self).modules,
                    *path,
                    #[trigger] program.classes@[c],
                    #[trigger] final(self).programs@[k].1,
                ),
            old(self).has_program(full_key(*path)) <==> r == Err::<(), LoadError>(
                LoadError::DuplicateProgram,
            ),
            r == Err::<(), LoadError>(LoadError::DuplicateKey) ==> !program_unique(program),
            r is Ok ==> program_unique(program),
            r matches Err(e) ==> load_fails(*final(self), *path, program, e),
            (exists|d1: int, d2: int|
                0 <= d1 < d2 < program.classes@.len() && (#[trigger] program.classes@[d1]).name@
                    == (#[trigger] program.classes@[d2]).name@) ==> r is Err,
            r == Err::<(), LoadError>(LoadError::InvalidSocket) ==> exists|j: int|
                0 <= j < program.connections@.len() && (
                #[trigger] program.connections@[j]).input.0.1 == usize::MAX,
            r == Err::<(), LoadError>(LoadError::DuplicateClass) ==> exists|c: int|
                0 <= c < program.classes@.len() && final(self).modules.occupied(
                    class_key(*path, (#[trigger] program.classes@[c]).name@),
                ),
            r == Err::<(), LoadError>(LoadError::NonModuleSegment) ==> final(self).modules.blocks(full_key(*path)),
            r == Err::<(), LoadError>(LoadError::UnknownClass) ==> exists|j: int|
                0 <= j < program.nodes@.len() && !final(self).modules.holds(
                    full_key((#[trigger] program.nodes@[j]).1.class),
                ),
            r == Err::<(), LoadError>(LoadError::PrototypeOutOfRange) ==> exists|j: int, i: int|
                0 <= j < program.nodes@.len() && 0 <= i < final(self).modules.items@.len()
                    && #[trigger] final(self).modules.key(i) == full_key(
                    (#[trigger] program.nodes@[j]).1.class,
                ) && program.nodes@[j].1.idx >= final(self).modules.items@[i].1.nodes@.len(),
            r == Err::<(), LoadError>(LoadError::InvalidVariant) ==> exists|j: int, i: int|
                0 <= j < program.nodes@.len() && 0 <= i < final(self).modules.items@.len()
                    && #[trigger] final(self).modules.key(i) == full_key(
                    (#[trigger] program.nodes@[j]).1.class,
                ) && program.nodes@[j].1.idx < final(self).modules.items@[i].1.nodes@.len()
                    && forall|w: NodeView|
                    !#[trigger] variant_read(
                        final(self).modules.items@[i].1.nodes@[program.nodes@[j].1.idx as int].view(),
                        program.nodes@[j].1.variant@,
                        w,
                    ),
            r == Err::<(), LoadError>(LoadError::UnknownNode) ==> exists|c: int, m: int|
                0 <= c < program.classes@.len() && 0 <= m < program.classes@[c].nodes@.len()
                    && forall|j: int|
                    0 <= j < program.nodes@.len() ==> (#[trigger] program.nodes@[j]).0
                        != #[trigger] program.classes@[c].nodes@[m],
            forall|k: Seq<Seq<char>>| old(self).has_program(k) ==> #[trigger] final(self).has_program(k),
            final(self).programs@.len() >= old(self).programs@.len(),
            forall|k: int|
                0 <= k < old(self).programs@.len() ==> #[trigger] final(self).programs@[k] == old(
                    self,
                ).programs@[k],
            r is Ok ==> forall|key: Seq<Seq<char>>|
                old(self).modules.holds(key) ==> #[trigger] final(self).modules.holds(key),
    {
        if self.find_program(path).is_some() {
            return Err(LoadError::DuplicateProgram);
        }
        if !(check_node_ids(&program.nodes) && check_edges(&program.branch_edges)
            && check_connections(&program.connections) && check_consts(&program.const_inputs)) {
            return Err(LoadError::DuplicateKey);
        }
        let mut q: usize = 0;
        while q < program.connections.len()
            invariant
                self.wf(),
                self.programs == old(self).programs,
                self.modules == old(self).modules,
                !old(self).has_program(full_key(*path)),
                program_unique(program),
                q <= program.connections@.len(),
                forall|j: int|
                    0 <= j < q ==> (#[trigger] program.connections@[j]).input.0.1 < usize::MAX,
            decreases program.connections@.len() - q,
        {
            if program.connections[q].input.0.1 == usize::MAX {
                return Err(LoadError::InvalidSocket);
            }
            q = q + 1;
        }
        let ghost m0 = self.modules;
        // 1. declare the program's classes
        let mut c: usize = 0;
        while c < program.classes.len()
            invariant
                self.wf(),
                self.programs == old(self).programs,
                !old(self).has_program(full_key(*path)),
                m0 == old(self).modules,
                program_unique(program),
                c <= program.classes@.len(),
                forall|i: int|
                    m0.items@.len() <= i < self.modules.items@.len() ==> (
                    #[trigger] self.modules.items@[i]).1.name@ == self.modules.key(i).last()
                        && self.modules.items@[i].1.obj_from_str is None,
                forall|i: int, d: int|
                    0 <= i < m0.items@.len() && 0 <= d < c ==> #[trigger] m0.key(i) != class_key(
                        *path,
                        (#[trigger] program.classes@[d]).name@,
                    ),

                self.modules.items@.len() >= m0.items@.len(),
                forall|i: int| 0 <= i < m0.items@.len() ==> #[trigger] self.modules.items@[i]
                    == m0.items@[i],
                forall|i: int|
                    m0.items@.len() <= i < self.modules.items@.len() ==> (
                    #[trigger] self.modules.items@[i]).1.nodes@.len() == 0,
                forall|i: int|
                    m0.items@.len() <= i < self.modules.items@.len() ==> exists|d: int|
                        0 <= d < c && #[trigger] self.modules.key(i) == class_key(
                            *path,
                            program.classes@[d].name@,
                        ),
                forall|d: int|
                    0 <= d < c ==> self.modules.holds(
                        class_key(*path, (#[trigger] program.classes@[d]).name@),
                    ),
                forall|d1: int, d2: int|
                    0 <= d1 < d2 < c ==> (#[trigger] program.classes@[d1]).name@ != (
                    #[trigger] program.classes@[d2]).name@,
            decreases program.classes@.len() - c,
        {
            let name = &program.classes[c].name;
            let class_path = class_path_of(path, name);
            let ghost mc = self.modules;
            let count = self.modules.items.len();
            if self.modules.get_class(&class_path).is_some() {
                proof {
                    let i = choose|i: int|
                        0 <= i < self.modules.items@.len() && #[trigger] self.modules.key(i)
                            == full_key(class_path);
                    assert(is_prefix(full_key(class_path), self.modules.key(i))) by {
                        assert(self.modules.key(i).subrange(0, self.modules.key(i).len() as int)
                            =~= self.modules.key(i));
                    }
                    assert(self.modules.occupied(class_key(*path, program.classes@[c as int].name@)));
                }
                return Err(LoadError::DuplicateClass);
            }
            proof {
                assert forall|d: int| 0 <= d < c implies (#[trigger] program.classes@[d]).name@
                    != program.classes@[c as int].name@ by {
                    if program.classes@[d].name@ == program.classes@[c as int].name@ {
                        assert(self.modules.holds(class_key(*path, program.classes@[d].name@)));
                    }
                }
            }
            match self.modules.insert(class_path, Class::empty(name)) {
                Ok(()) => {},
                Err(_) => {
                    assert(self.programs@ == old(self).programs@);
                    proof {
                        let w = choose|w: int|
                            0 <= w < mc.items@.len() && is_prefix(
                                #[trigger] mc.key(w),
                                class_path.segs(),
                            );
                        assert(self.modules.key(w) == mc.key(w));
                    }
                    return Err(LoadError::NonModuleSegment);
                },
            }
            if self.modules.items.len() == count {
                proof {
                    assert(mc.occupied(full_key(class_path)));
                    let w = choose|w: int|
                        0 <= w < mc.items@.len() && is_prefix(
                            full_key(class_path),
                            #[trigger] mc.key(w),
                        );
                    assert(self.modules.key(w) == mc.key(w));
                    assert(self.modules.occupied(class_key(*path, program.classes@[c as int].name@)));
                }
                return Err(LoadError::DuplicateClass);
            }
            proof {
                let n = mc.items@.len() as int;
                assert(self.modules.key(n) == class_key(*path, program.classes@[c as int].name@));
                assert(self.modules.items@[n].1.name@ == program.classes@[c as int].name@);
                assert forall|i: int|
                    m0.items@.len() <= i < self.modules.items@.len() implies (
                    #[trigger] self.modules.items@[i]).1.name@ == self.modules.key(i).last()
                        && self.modules.items@[i].1.obj_from_str is None by {
                    if i < n {
                        assert(self.modules.items@[i] == mc.items@[i]);
                        assert(self.modules.key(i) == mc.key(i));
                    }
                }
                assert forall|i: int, d: int|
                    0 <= i < m0.items@.len() && 0 <= d < c + 1 implies #[trigger] m0.key(i)
                    != class_key(*path, (#[trigger] program.classes@[d]).name@) by {
                    if d == c {
                        assert(mc.key(i) == m0.key(i));
                    }
                }
                assert forall|d: int| 0 <= d < c + 1 implies self.modules.holds(
                    class_key(*path, (#[trigger] program.classes@[d]).name@),
                ) by {
                    if d < c {
                        let w = choose|w: int|
                            0 <= w < mc.items@.len() && #[trigger] mc.key(w) == class_key(
                                *path,
                                program.classes@[d].name@,
                            );
                        assert(self.modules.key(w) == mc.key(w));
                    }
                }
                assert forall|i: int|
                    m0.items@.len() <= i < self.modules.items@.len() implies exists|d: int|
                        0 <= d < c + 1 && #[trigger] self.modules.key(i) == class_key(
                            *path,
                            program.classes@[d].name@,
                        ) by {
                    if i < n {
                        assert(self.modules.key(i) == mc.key(i));
                    }
                }
            }
            c = c + 1;
        }
        // 2. the program's edges, store and constants
        let mut loaded = LoadedProgram::from_program(program);
        // 3. its nodes, from their classes' prototypes
        let mut n: usize = 0;
        while n < program.nodes.len()
            invariant
                self.wf(),
                self.programs == old(self).programs,
                !old(self).has_program(full_key(*path)),
                m0 == old(self).modules,
                forall|i: int|
                    m0.items@.len() <= i < self.modules.items@.len() ==> (
                    #[trigger] self.modules.items@[i]).1.name@ == self.modules.key(i).last()
                        && self.modules.items@[i].1.obj_from_str is None,
                forall|i: int, d: int|
                    0 <= i < m0.items@.len() && 0 <= d < program.classes@.len() ==> #[trigger] m0.key(
                        i,
                    ) != class_key(*path, (#[trigger] program.classes@[d]).name@),
                self.modules.items@.len() >= m0.items@.len(),
                forall|i: int| 0 <= i < m0.items@.len() ==> #[trigger] self.modules.items@[i]
                    == m0.items@[i],
                forall|i: int|
                    m0.items@.len() <= i < self.modules.items@.len() ==> (
                    #[trigger] self.modules.items@[i]).1.nodes@.len() == 0,
                forall|d: int|
                    0 <= d < program.classes@.len() ==> self.modules.holds(
                        class_key(*path, (#[trigger] program.classes@[d]).name@),
                    ),
                forall|d1: int, d2: int|
                    0 <= d1 < d2 < program.classes@.len() ==> (
                    #[trigger] program.classes@[d1]).name@ != (
                    #[trigger] program.classes@[d2]).name@,
                loaded.wf(),
                loaded.branch_edges@ == program.branch_edges@,
                loaded.const_inputs@ == program.const_inputs@,
                loaded.connections@.len() == program.connections@.len(),
                forall|j: int|
                    0 <= j < loaded.connections@.len() ==> #[trigger] loaded.connections@[j] == (
                        program.connections@[j],
                        None::<Object>,
                    ),
                n <= program.nodes@.len(),
                forall|j: int| 0 <= j < n ==> loaded.nodes.has(#[trigger] program.nodes@[j].0),
                forall|id: NodeId|
                    #[trigger] loaded.nodes.has(id) ==> exists|j: int|
                        0 <= j < n && program.nodes@[j].0 == id && instantiates(
                            m0,
                            #[trigger] program.nodes@[j].1,
                            loaded.nodes.nodes@[loaded.nodes.index_of(id)].1.view(),
                        ),
            decreases program.nodes@.len() - n,
        {
            let (id, info) = (&program.nodes[n].0, &program.nodes[n].1);
            let class = match self.modules.get_class(&info.class) {
                None => {
                    return Err(LoadError::UnknownClass);
                },
                Some(cl) => cl,
            };
            let ghost ci = choose|i: int|
                0 <= i < self.modules.items@.len() && #[trigger] self.modules.key(i) == full_key(
                    info.class,
                ) && *class == self.modules.items@[i].1;
            if info.idx >= class.nodes.len() {
                return Err(LoadError::PrototypeOutOfRange);
            }
            assert(ci < m0.items@.len());
            let ghost proto = class.nodes@[info.idx as int].view();
            let mut node = class.nodes[info.idx].clone_node();
            match node.set_variant(info.variant.as_str()) {
                Ok(()) => {},
                Err(VariantParseError::InvalidVariant) => {
                    return Err(LoadError::InvalidVariant);
                },
            }
            proof {
                assert(m0.key(ci) == full_key(info.class));
                assert(instantiates(m0, *info, node.view()));
            }
            let ghost before = loaded.nodes;
            let ghost built = node.view();
            loaded.nodes.insert_node_at(*id, node);
            proof {
                assert forall|k: NodeId| #[trigger] loaded.nodes.has(k) implies exists|j: int|
                    0 <= j < n + 1 && program.nodes@[j].0 == k && instantiates(
                        m0,
                        #[trigger] program.nodes@[j].1,
                        loaded.nodes.nodes@[loaded.nodes.index_of(k)].1.view(),
                    ) by {
                    if k == *id {
                        assert(program.nodes@[n as int].1 == *info);
                    } else {
                        assert(before.has(k));
                        let j = choose|j: int|
                            0 <= j < n && program.nodes@[j].0 == k && instantiates(
                                m0,
                                #[trigger] program.nodes@[j].1,
                                before.nodes@[before.index_of(k)].1.view(),
                            );
                    }
                }
            }
            n = n + 1;
        }
        // 4. each declared class's method nodes, in declared order
        let mut c: usize = 0;
        while c < program.classes.len()
            invariant
                self.wf(),
                self.programs == old(self).programs,
                !old(self).has_program(full_key(*path)),
                m0 == old(self).modules,
                self.modules.items@.len() >= m0.items@.len(),
                forall|i: int| 0 <= i < m0.items@.len() ==> #[trigger] self.modules.key(i) == m0.key(i),
                forall|i: int|
                    m0.items@.len() <= i < self.modules.items@.len() ==> (
                    #[trigger] self.modules.items@[i]).1.name@ == self.modules.key(i).last()
                        && self.modules.items@[i].1.obj_from_str is None,
                forall|i: int, d: int|
                    0 <= i < m0.items@.len() && 0 <= d < program.classes@.len() ==> #[trigger] m0.key(
                        i,
                    ) != class_key(*path, (#[trigger] program.classes@[d]).name@),
                forall|d: int|
                    0 <= d < program.classes@.len() ==> self.modules.holds(
                        class_key(*path, (#[trigger] program.classes@[d]).name@),
                    ),
                loaded.wf(),
                loaded_from(loaded, program, old(self).modules),
                c <= program.classes@.len(),
                forall|d1: int, d2: int|
                    0 <= d1 < d2 < program.classes@.len() ==> (
                    #[trigger] program.classes@[d1]).name@ != (
                    #[trigger] program.classes@[d2]).name@,
                forall|d: int|
                    0 <= d < c ==> methods_set(
                        self.modules,
                        *path,
                        #[trigger] program.classes@[d],
                        loaded,
                    ),
            decreases program.classes@.len() - c,
        {
            let pc = &program.classes[c];
            let mut methods: Vec<Node> = Vec::new();
            let mut m: usize = 0;
            while m < pc.nodes.len()
                invariant
                    self.wf(),
                    self.programs == old(self).programs,
                    !old(self).has_program(full_key(*path)),
                    loaded.wf(),
                    loaded_from(loaded, program, old(self).modules),
                    pc == program.classes@[c as int],
                    c < program.classes@.len(),
                    m <= pc.nodes@.len(),
                    methods@.len() == m,
                    forall|x: int|
                        0 <= x < m ==> loaded.nodes.has(pc.nodes@[x]) && (
                        #[trigger] methods@[x]).view() == loaded.nodes.nodes@[loaded.nodes.index_of(
                            pc.nodes@[x],
                        )].1.view(),
                decreases pc.nodes@.len() - m,
            {
                match loaded.get_node(pc.nodes[m]) {
                    None => {
                        proof {
                            assert forall|j: int| 0 <= j < program.nodes@.len() implies (
                            #[trigger] program.nodes@[j]).0 != program.classes@[c as int].nodes@[m as int] by {
                                assert(loaded.nodes.has(program.nodes@[j].0));
                            }
                        }
                        return Err(LoadError::UnknownNode);
                    },
                    Some(nd) => methods.push(nd.clone_node()),
                }
                m = m + 1;
            }
            let class_path = class_path_of(path, &pc.name);
            let ghost mc = self.modules;
            let ghost ms = methods@;
            self.modules.set_class_nodes(&class_path, methods);
            proof {
                assert forall|d: int| 0 <= d < c + 1 implies methods_set(
                    self.modules,
                    *path,
                    #[trigger] program.classes@[d],
                    loaded,
                ) by {
                    if d < c {
                        let i = choose|i: int|
                            0 <= i < mc.items@.len() && #[trigger] mc.key(i) == class_key(
                                *path,
                                program.classes@[d].name@,
                            ) && mc.items@[i].1.nodes@.len() == program.classes@[d].nodes@.len()
                                && forall|x: int|
                                0 <= x < program.classes@[d].nodes@.len() ==> loaded.nodes.has(
                                    program.classes@[d].nodes@[x],
                                ) && (#[trigger] mc.items@[i].1.nodes@[x]).view()
                                    == loaded.nodes.nodes@[loaded.nodes.index_of(
                                    program.classes@[d].nodes@[x],
                                )].1.view();
                        assert(class_key(*path, program.classes@[d].name@) != class_key(
                            *path,
                            program.classes@[c as int].name@,
                        )) by {
                            assert(class_key(*path, program.classes@[d].name@).last()
                                == program.classes@[d].name@);
                        }
                        assert(self.modules.items@[i] == mc.items@[i]);
                        assert(self.modules.key(i) == mc.key(i));
                    } else {
                        let i = choose|i: int|
                            0 <= i < mc.items@.len() && #[trigger] mc.key(i) == class_key(
                                *path,
                                program.classes@[d].name@,
                            );
                        assert(self.modules.items@[i].1.nodes@ == ms);
                        assert(self.modules.key(i) == mc.key(i));
                        if i < m0.items@.len() {
                            assert(mc.key(i) == m0.key(i));
                        }
                        assert(mc.key(i).last() == program.classes@[d].name@);
                    }
                }
                assert forall|d: int| 0 <= d < program.classes@.len() implies self.modules.holds(
                    class_key(*path, (#[trigger] program.classes@[d]).name@),
                ) by {
                    let w = choose|w: int|
                        0 <= w < mc.items@.len() && #[trigger] mc.key(w) == class_key(
                            *path,
                            program.classes@[d].name@,
                        );
                    assert(self.modules.key(w) == mc.key(w));
                }
            }
            c = c + 1;
        }
        let p = ModulePath(crate::text::copy_strings(&path.0), path.1.clone());
        let ghost before = self.programs@;
        let ghost lv = loaded;
        self.programs.push((p, loaded));
        proof {
            let k = before.len() as int;
            assert(full_key(self.programs@[k].0) == full_key(*path));
            assert(self.programs@[k].1 == lv);
            assert forall|a: int, b: int|
                0 <= a < b < self.programs@.len() implies full_key((#[trigger] self.programs@[a]).0)
                != full_key((#[trigger] self.programs@[b]).0) by {
                if b == k {
                    assert(self.programs@[a] == before[a]);
                } else {
                    assert(self.programs@[a] == before[a]);
                    assert(self.programs@[b] == before[b]);
                }
            }
            assert forall|j: int| 0 <= j < self.programs@.len() implies (
            #[trigger] self.programs@[j]).1.wf() by {
                if j < k {
                    assert(self.programs@[j] == before[j]);
                }
            }
            assert forall|key: Seq<Seq<char>>| old(self).modules.holds(key) implies #[trigger] self.modules.holds(
                key,
            ) by {
                let w = choose|w: int|
                    0 <= w < m0.items@.len() && #[trigger] m0.key(w) == key;
                assert(self.modules.key(w) == m0.key(w));
            }
            assert forall|q: Seq<Seq<char>>| old(self).has_program(q) implies #[trigger] self.has_program(q) by {
                let j = choose|j: int|
                    0 <= j < before.len() && full_key(#[trigger] before[j].0) == q;
                assert(self.programs@[j] == before[j]);
            }
            assert forall|kk: int, cc: int|
                0 <= kk < self.programs@.len() && full_key(self.programs@[kk].0) == full_key(*path)
                    && 0 <= cc < program.classes@.len() implies methods_set(
                self.modules,
                *path,
                #[trigger] program.classes@[cc],
                #[trigger] self.programs@[kk].1,
            ) by {
                if kk < k {
                    assert(self.programs@[kk] == before[kk]);
                    assert(old(self).has_program(full_key(*path)));
                }
            }
            assert forall|kk: int|
                0 <= kk < self.programs@.len() && full_key(#[trigger] self.programs@[kk].0)
                    == full_key(*path) implies loaded_from(
                self.programs@[kk].1,
                program,
                old(self).modules,
            ) by {
                if kk < k {
                    assert(self.programs@[kk] == before[kk]);
                    assert(old(self).has_program(full_key(*path)));
                }
            }
        }
        Ok(())
    }

    /// Loads every program of a collection, in order.
    pub fn load_programs(&mut self, programs: &ProgramCollection) -> (r: Result<(), LoadError>)
        requires
            old(self).wf(),
        ensures
            final(self).wf(),
            r matches Err(e) ==> exists|i: int|
                0 <= i < programs.programs@.len() && load_fails(
                    *final(self),
                    (#[trigger] programs.programs@[i]).0,
                    &programs.programs@[i].1,
                    e,
                ),
            r is Ok ==> forall|i: int|
                0 <= i < programs.programs@.len() ==> final(self).has_program(
                    full_key(#[trigger] programs.programs@[i].0),
                ),
            r is Ok ==> forall|i: int, k: int|
                0 <= i < programs.programs@.len() && 0 <= k < final(self).programs@.len()
                    && full_key(#[trigger] final(self).programs@[k].0) == full_key(
                    (#[trigger] programs.programs@[i]).0,
                ) ==> exists|m: Module|
                    loaded_from(final(self).programs@[k].1, &programs.programs@[i].1, m),
            r is Ok ==> forall|i: int, c: int|
                0 <= i < programs.programs@.len() && 0 <= c < (
                #[trigger] programs.programs@[i]).1.classes@.len() ==> final(self).modules.holds(
                    class_key(programs.programs@[i].0, (#[trigger] programs.programs@[i].1.classes@[c]).name@),
                ),
    {
        let mut i: usize = 0;
        while i < programs.programs.len()
            invariant
                self.wf(),
                i <= programs.programs@.len(),
                forall|j: int|
                    0 <= j < i ==> self.has_program(full_key(#[trigger] programs.programs@[j].0)),
                forall|j: int, k: int|
                    0 <= j < i && 0 <= k < self.programs@.len() && full_key(
                        #[trigger] self.programs@[k].0,
                    ) == full_key((#[trigger] programs.programs@[j]).0) ==> exists|m: Module|
                        loaded_from(self.programs@[k].1, &programs.programs@[j].1, m),
                forall|j: int, c: int|
                    0 <= j < i && 0 <= c < (#[trigger] programs.programs@[j]).1.classes@.len()
                        ==> self.modules.holds(
                        class_key(programs.programs@[j].0, (#[trigger] programs.programs@[j].1.classes@[c]).name@),
                    ),
            decreases programs.programs@.len() - i,
        {
            let ghost before = *self;
            match self.load_program(&programs.programs[i].0, &programs.programs[i].1) {
                Ok(()) => {},
                Err(e) => {
                    assert(load_fails(*self, programs.programs@[i as int].0, &programs.programs@[i as int].1, e));
                    return Err(e);
                },
            }
            proof {
                assert forall|j: int, k: int|
                    0 <= j < i + 1 && 0 <= k < self.programs@.len() && full_key(
                        #[trigger] self.programs@[k].0,
                    ) == full_key((#[trigger] programs.programs@[j]).0) implies exists|m: Module|
                        loaded_from(self.programs@[k].1, &programs.programs@[j].1, m) by {
                    if j < i {
                        assert(before.has_program(full_key(programs.programs@[j].0)));
                        let k0 = choose|k0: int|
                            0 <= k0 < before.programs@.len() && full_key(
                                #[trigger] before.programs@[k0].0,
                            ) == full_key(programs.programs@[j].0);
                        assert(self.programs@[k0] == before.programs@[k0]);
                        if k != k0 {
                            if k < k0 {
                                assert(full_key(self.programs@[k].0) != full_key(self.programs@[k0].0));
                            } else {
                                assert(full_key(self.programs@[k0].0) != full_key(self.programs@[k].0));
                            }
                        }
                        assert(exists|m: Module| loaded_from(before.programs@[k0].1, &programs.programs@[j].1, m));
                    } else {
                        assert(loaded_from(self.programs@[k].1, &programs.programs@[i as int].1, before.modules));
                    }
                }
                assert forall|j: int, c: int|
                    0 <= j < i + 1 && 0 <= c < (#[trigger] programs.programs@[j]).1.classes@.len()
                        implies self.modules.holds(
                        class_key(programs.programs@[j].0, (#[trigger] programs.programs@[j].1.classes@[c]).name@),
                    ) by {
                    if j < i {
                        assert(before.modules.holds(
                            class_key(programs.programs@[j].0, programs.programs@[j].1.classes@[c].name@),
                        ));
                    }
                }
            }
            i = i + 1;
        }
        Ok(())
    }
}

/// The serialization envelopes a program file can use.
#[derive(Debug, Clone, Copy, PartialEq, Eq, Structural)]
pub enum ProgramFormat {
    Ron,
    Json,
    Bincode,
}

pub open spec fn ends_with(s: Seq<char>, suffix: Seq<char>) -> bool {
    s.len() >= suffix.len() && s.subrange(s.len() - suffix.len(), s.len() as int) == suffix
}

fn has_suffix(v: &Vec<char>, suffix: &str) -> (r: bool)
    ensures
        r == ends_with(v@, suffix@),
{
    let n = suffix.unicode_len();
    if v.len() < n {
        return false;
    }
    let r = has_prefix(v, v.len() - n, v.len(), suffix);
    r
}

/// The format that a program file's name announces by its suffix: `.ron.ssc`,
/// `.json.ssc` or `.bin.ssc`; none for any other name.
pub fn format_from_filename(file_name: &str) -> (r: Option<ProgramFormat>)
    ensures
        ends_with(file_name@, ".ron.ssc"@) ==> r == Some(ProgramFormat::Ron),
        !ends_with(file_name@, ".ron.ssc"@) && ends_with(file_name@, ".json.ssc"@) ==> r == Some(
            ProgramFormat::Json,
        ),
        !ends_with(file_name@, ".ron.ssc"@) && !ends_with(file_name@, ".json.ssc"@) && ends_with(
            file_name@,
            ".bin.ssc"@,
        ) ==> r == Some(ProgramFormat::Bincode),
        !ends_with(file_name@, ".ron.ssc"@) && !ends_with(file_name@, ".json.ssc"@) && !ends_with(
            file_name@,
            ".bin.ssc"@,
        ) ==> r is None,
{
    let v = chars_of(file_name);
    if has_suffix(&v, ".ron.ssc") {
        Some(ProgramFormat::Ron)
    } else if has_suffix(&v, ".json.ssc") {
        Some(ProgramFormat::Json)
    } else if has_suffix(&v, ".bin.ssc") {
        Some(ProgramFormat::Bincode)
    } else {
        None
    }
}

} // verus!

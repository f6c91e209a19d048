use vstd::prelude::*;

use crate::devmem::{mapped, same_layout, Span, lemma_same_layout_mapped, Ctx, DevSlice};
use crate::error::Error;
use crate::memcpy::{
    apply_copy, apply_desc, check_desc, d2d_desc, desc_ok, dst_addrs, src_addrs, MemcpyDesc,
};

verus! {

/// A resolved kernel launch: function handle, launch configuration and the
/// marshalled argument words. The graph owns the argument storage, so the
/// captured values stay live for as long as the graph and its instantiations.
pub struct KernelDesc {
    pub func: usize,
    pub grid: (u32, u32, u32),
    pub block: (u32, u32, u32),
    pub shared_mem_bytes: usize,
    pub params: Vec<u64>,
}

/// Mathematical image of a kernel launch.
#[verifier::ext_equal]
pub ghost struct KernelImg {
    pub func: int,
    pub grid: (u32, u32, u32),
    pub block: (u32, u32, u32),
    pub shared_mem_bytes: int,
    pub params: Seq<u64>,
}

impl View for KernelDesc {
    type V = KernelImg;

    open spec fn view(&self) -> KernelImg {
        KernelImg {
            func: self.func as int,
            grid: self.grid,
            block: self.block,
            shared_mem_bytes: self.shared_mem_bytes as int,
            params: self.params@,
        }
    }
}

/// Kind of a recorded node.
pub enum NodeKind {
    /// Synchronisation anchor with no work of its own.
    Empty,
    /// A copy described by the full three-dimensional descriptor.
    Memcpy(MemcpyDesc),
    /// A kernel launch captured at record time.
    Kernel(KernelDesc),
}

/// Mathematical image of a node kind.
#[verifier::ext_equal]
pub ghost enum NodeKindImg {
    Empty,
    Memcpy(MemcpyDesc),
    Kernel(KernelImg),
}

impl View for NodeKind {
    type V = NodeKindImg;

    open spec fn view(&self) -> NodeKindImg {
        match self {
            NodeKind::Empty => NodeKindImg::Empty,
            NodeKind::Memcpy(d) => NodeKindImg::Memcpy(*d),
            NodeKind::Kernel(k) => NodeKindImg::Kernel(k@),
        }
    }
}

/// One recorded node: its kind and the ids of the nodes it depends on.
pub struct GraphNode {
    pub kind: NodeKind,
    pub deps: Vec<usize>,
}

/// Mathematical image of a node.
#[verifier::ext_equal]
pub ghost struct NodeImg {
    pub kind: NodeKindImg,
    pub deps: Seq<int>,
}

impl View for GraphNode {
    type V = NodeImg;

    open spec fn view(&self) -> NodeImg {
        NodeImg { kind: self.kind@, deps: Seq::new(self.deps@.len(), |k: int| self.deps@[k] as int) }
    }
}

/// A recorded device graph: an arena of nodes identified by index, each with
/// explicit dependencies on earlier nodes, so the recorded relation is a DAG
/// by construction and a cycle can never be added.
pub struct Graph {
    nodes: Vec<GraphNode>,
}

/// The dependency list names only nodes that already stand in the graph.
pub open spec fn deps_ok(deps: Seq<int>, i: int) -> bool {
    forall|k: int| 0 <= k < deps.len() ==> 0 <= #[trigger] deps[k] < i
}

/// Every node depends only on earlier nodes.
pub open spec fn nodes_wf(nodes: Seq<NodeImg>) -> bool {
    forall|i: int| 0 <= i < nodes.len() ==> deps_ok((#[trigger] nodes[i]).deps, i)
}

/// No node is a kernel launch: the graph is a pure copy DAG, which is the
/// part the model can replay without a driver.
pub open spec fn copy_only(nodes: Seq<NodeImg>) -> bool {
    forall|i: int| 0 <= i < nodes.len() ==> !((#[trigger] nodes[i]).kind is Kernel)
}

/// Every copy node's addresses are mapped in the given table.
pub open spec fn graph_ok(s: Seq<Span>, nodes: Seq<NodeImg>) -> bool {
    forall|i: int|
        0 <= i < nodes.len() ==> match (#[trigger] nodes[i]).kind {
            NodeKindImg::Memcpy(d) => desc_ok(s, d),
            _ => true,
        }
}

/// The table after replaying the nodes in record order: copies move bytes,
/// anchors do nothing.
pub open spec fn run_nodes(nodes: Seq<NodeImg>, s: Seq<Span>) -> Seq<Span>
    decreases nodes.len(),
{
    if nodes.len() == 0 {
        s
    } else {
        let prev = run_nodes(nodes.drop_last(), s);
        match nodes.last().kind {
            NodeKindImg::Memcpy(d) => apply_desc(prev, d),
            _ => prev,
        }
    }
}

impl Graph {
    /// The recorded nodes, in record order.
    pub closed spec fn rec(self) -> Seq<NodeImg> {
        Seq::new(self.nodes@.len(), |i: int| self.nodes@[i]@)
    }

    /// Well-formedness: dependencies point backwards.
    pub open spec fn wf(self) -> bool {
        nodes_wf(self.rec())
    }

    /// A fresh, empty graph.
    pub fn new() -> (r: Graph)
        ensures
            r.wf(),
            r.rec() =~= Seq::<NodeImg>::empty(),
    {
        Graph { nodes: Vec::new() }
    }

    /// The recorded nodes.
    pub fn nodes(&self) -> (r: &Vec<GraphNode>)
        ensures
            r@.len() == self.rec().len(),
            forall|i: int| 0 <= i < r@.len() ==> (#[trigger] r@[i])@ == self.rec()[i],
    {
        &self.nodes
    }

    /// Number of recorded nodes; the next node gets this id.
    pub fn node_count(&self) -> (r: usize)
        ensures
            r == self.rec().len(),
    {
        self.nodes.len()
    }

    /// Append a node, checking that the dependencies point backwards.
    fn push_node(&mut self, kind: NodeKind, deps: Vec<usize>) -> (id: usize)
        requires
            old(self).wf(),
            forall|k: int| 0 <= k < deps@.len() ==> #[trigger] deps@[k] < old(self).rec().len(),
        ensures
            final(self).wf(),
            id == old(self).rec().len(),
            final(self).rec() =~= old(self).rec().push(
                NodeImg {
                    kind: kind@,
                    deps: Seq::new(deps@.len(), |k: int| deps@[k] as int),
                },
            ),
    {
        let id = self.nodes.len();
        self.nodes.push(GraphNode { kind, deps });
        proof {
            let r = final(self).rec();
            assert(r =~= old(self).rec().push(r.last()));
            assert forall|i: int| 0 <= i < r.len() implies deps_ok((#[trigger] r[i]).deps, i) by {
                if i < r.len() - 1 {
                    assert(r[i] == old(self).rec()[i]);
                }
            }
        }
        id
    }

    /// Add a synchronisation anchor.
    pub fn add_empty(&mut self, deps: Vec<usize>) -> (id: usize)
        requires
            old(self).wf(),
            forall|k: int| 0 <= k < deps@.len() ==> #[trigger] deps@[k] < old(self).rec().len(),
        ensures
            final(self).wf(),
            id == old(self).rec().len(),
            final(self).rec() =~= old(self).rec().push(
                NodeImg {
                    kind: NodeKindImg::Empty,
                    deps: Seq::new(deps@.len(), |k: int| deps@[k] as int),
                },
            ),
    {
        self.push_node(NodeKind::Empty, deps)
    }

    /// Add a copy node from the full descriptor: the authoritative path that
    /// the convenience constructors go through.
    pub fn add_memcpy_node_with_params(&mut self, params: &MemcpyDesc, deps: Vec<usize>) -> (id:
        usize)
        requires
            old(self).wf(),
            forall|k: int| 0 <= k < deps@.len() ==> #[trigger] deps@[k] < old(self).rec().len(),
        ensures
            final(self).wf(),
            id == old(self).rec().len(),
            final(self).rec() =~= old(self).rec().push(
                NodeImg {
                    kind: NodeKindImg::Memcpy(*params),
                    deps: Seq::new(deps@.len(), |k: int| deps@[k] as int),
                },
            ),
    {
        self.push_node(NodeKind::Memcpy(*params), deps)
    }

    /// Add a flat device-to-device copy covering both slices, which must have
    /// the same length.
    pub fn add_memcpy_d2d(&mut self, dst: &DevSlice, src: &DevSlice, deps: Vec<usize>) -> (id:
        usize)
        requires
            old(self).wf(),
            dst.len == src.len,
            forall|k: int| 0 <= k < deps@.len() ==> #[trigger] deps@[k] < old(self).rec().len(),
        ensures
            final(self).wf(),
            id == old(self).rec().len(),
            final(self).rec() =~= old(self).rec().push(
                NodeImg {
                    kind: NodeKindImg::Memcpy(d2d_desc(*dst, *src)),
                    deps: Seq::new(deps@.len(), |k: int| deps@[k] as int),
                },
            ),
    {
        let params = MemcpyDesc::d2d(dst, src);
        self.add_memcpy_node_with_params(&params, deps)
    }

    /// Re-add an existing copy node under fresh dependencies: reads the
    /// captured descriptor back and records a new node with the same one.
    pub fn add_memcpy_node(&mut self, node: usize, deps: Vec<usize>) -> (id: usize)
        requires
            old(self).wf(),
            node < old(self).rec().len(),
            old(self).rec()[node as int].kind is Memcpy,
            forall|k: int| 0 <= k < deps@.len() ==> #[trigger] deps@[k] < old(self).rec().len(),
        ensures
            final(self).wf(),
            id == old(self).rec().len(),
            final(self).rec() =~= old(self).rec().push(
                NodeImg {
                    kind: old(self).rec()[node as int].kind,
                    deps: Seq::new(deps@.len(), |k: int| deps@[k] as int),
                },
            ),
    {
        let params = match &self.nodes[node].kind {
            NodeKind::Memcpy(d) => *d,
            _ => {
                proof {
                    assert(false);
                }
                MemcpyDesc::d2d(&DevSlice { addr: 0, len: 0 }, &DevSlice { addr: 0, len: 0 })
            },
        };
        self.add_memcpy_node_with_params(&params, deps)
    }

    /// Add a kernel launch node; the graph takes the argument storage.
    pub fn add_kernel_node(&mut self, f: KernelDesc, deps: Vec<usize>) -> (id: usize)
        requires
            old(self).wf(),
            forall|k: int| 0 <= k < deps@.len() ==> #[trigger] deps@[k] < old(self).rec().len(),
        ensures
            final(self).wf(),
            id == old(self).rec().len(),
            final(self).rec() =~= old(self).rec().push(
                NodeImg {
                    kind: NodeKindImg::Kernel(f@),
                    deps: Seq::new(deps@.len(), |k: int| deps@[k] as int),
                },
            ),
    {
        self.push_node(NodeKind::Kernel(f), deps)
    }

    /// Explicit-mode recorder: append the given copies in order, each node
    /// depending on its predecessor, exactly as a capturing stream would.
    pub fn record_copies_in_order(&mut self, copies: &Vec<(DevSlice, DevSlice)>)
        requires
            old(self).wf(),
            old(self).rec().len() == 0,
            forall|i: int|
                0 <= i < copies@.len() ==> (#[trigger] copies@[i]).0.len == copies@[i].1.len,
        ensures
            final(self).wf(),
            final(self).rec() =~= nodes_of_ops(
                Seq::new(
                    copies@.len(),
                    |i: int| NodeKindImg::Memcpy(d2d_desc(copies@[i].0, copies@[i].1)),
                ),
            ),
    {
        let ghost ops = Seq::new(
            copies@.len(),
            |i: int| NodeKindImg::Memcpy(d2d_desc(copies@[i].0, copies@[i].1)),
        );
        let n = copies.len();
        let mut i: usize = 0;
        while i < n
            invariant
                i <= n,
                n == copies@.len(),
                self.wf(),
                ops == Seq::new(
                    copies@.len(),
                    |k: int| NodeKindImg::Memcpy(d2d_desc(copies@[k].0, copies@[k].1)),
                ),
                forall|k: int|
                    0 <= k < copies@.len() ==> (#[trigger] copies@[k]).0.len == copies@[k].1.len,
                self.rec() =~= nodes_of_ops(ops.take(i as int)),
            decreases n - i,
        {
            let mut deps: Vec<usize> = Vec::new();
            if i > 0 {
                deps.push(i - 1);
            }
            let dst = copies[i].0;
            let src = copies[i].1;
            let ghost before = self.rec();
            self.add_memcpy_d2d(&dst, &src, deps);
            proof {
                assert(self.rec() =~~= nodes_of_ops(ops.take(i as int + 1)));
            }
            i = i + 1;
        }
        proof {
            assert(ops.take(n as int) =~= ops);
        }
    }
}

/// The node a capturing stream appends for its `i`-th submitted operation:
/// the operation itself, depending on the previous submission.
pub open spec fn node_of_op(op: NodeKindImg, i: int) -> NodeImg {
    NodeImg {
        kind: op,
        deps: if i == 0 {
            Seq::empty()
        } else {
            seq![i - 1]
        },
    }
}

/// The graph a stream capture of the given operation sequence records.
pub open spec fn nodes_of_ops(ops: Seq<NodeKindImg>) -> Seq<NodeImg> {
    Seq::new(ops.len(), |i: int| node_of_op(ops[i], i))
}

/// A device stream: a FIFO queue of work. The model replays work
/// synchronously, so the stream itself carries no state; it is the handle
/// that capture and the loader are keyed on.
pub struct Stream {}

impl Stream {
    /// Begin stream capture: until `end`, submissions on this stream are
    /// recorded as graph nodes instead of running.
    pub fn capture(self) -> (r: CaptureStream)
        ensures
            r.wf(),
            r.recorded() =~= Seq::<NodeKindImg>::empty(),
    {
        let g = Graph::new();
        proof {
            assert(g.rec() =~= nodes_of_ops(Seq::<NodeKindImg>::empty()));
        }
        CaptureStream { graph: g, ops: Ghost(Seq::empty()) }
    }

    /// Wait until all work submitted to the stream has completed. The model
    /// replays work synchronously, so there is never anything to wait for.
    pub fn synchronize(&self) {
    }
}

/// A stream in capture mode: every submission is appended to a graph, each
/// depending on the previous one, so the recorded graph is exactly the one
/// the explicit interface would build for the same sequence.
pub struct CaptureStream {
    graph: Graph,
    ops: Ghost<Seq<NodeKindImg>>,
}

impl CaptureStream {
    /// The operations submitted so far, in order.
    pub closed spec fn recorded(self) -> Seq<NodeKindImg> {
        self.ops@
    }

    /// The captured graph mirrors the submitted operations.
    pub closed spec fn wf(self) -> bool {
        &&& self.graph.wf()
        &&& self.graph.rec() == nodes_of_ops(self.ops@)
    }

    /// Submit a flat device-to-device copy; it is recorded, not run.
    pub fn memcpy_d2d(&mut self, dst: &DevSlice, src: &DevSlice)
        requires
            old(self).wf(),
            dst.len == src.len,
        ensures
            final(self).wf(),
            final(self).recorded() =~= old(self).recorded().push(
                NodeKindImg::Memcpy(d2d_desc(*dst, *src)),
            ),
    {
        let mut deps: Vec<usize> = Vec::new();
        let n = self.graph.node_count();
        if n > 0 {
            deps.push(n - 1);
        }
        self.graph.add_memcpy_d2d(dst, src, deps);
        proof {
            self.ops@ = self.ops@.push(NodeKindImg::Memcpy(d2d_desc(*dst, *src)));
            assert(self.graph.rec() =~~= nodes_of_ops(self.ops@));
        }
    }

    /// Submit a kernel launch; it is recorded, not run.
    pub fn launch_kernel(&mut self, f: KernelDesc)
        requires
            old(self).wf(),
        ensures
            final(self).wf(),
            final(self).recorded() =~= old(self).recorded().push(NodeKindImg::Kernel(f@)),
    {
        let mut deps: Vec<usize> = Vec::new();
        let n = self.graph.node_count();
        if n > 0 {
            deps.push(n - 1);
        }
        let ghost img = f@;
        self.graph.add_kernel_node(f, deps);
        proof {
            self.ops@ = self.ops@.push(NodeKindImg::Kernel(img));
            assert(self.graph.rec() =~~= nodes_of_ops(self.ops@));
        }
    }

    /// End capture and hand back the recorded graph.
    pub fn end(self) -> (r: Graph)
        requires
            self.wf(),
        ensures
            r.wf(),
            r.rec() == nodes_of_ops(self.recorded()),
    {
        self.graph
    }
}

/// Law: recording the same operation sequence through the explicit interface
/// and through stream capture yields identical graphs, and identical graphs
/// replay any device state to bit-identical device state.
pub proof fn lemma_modes_equivalent(ops: Seq<NodeKindImg>, g1: Graph, g2: Graph, s: Seq<Span>)
    requires
        g1.rec() == nodes_of_ops(ops),
        g2.rec() == nodes_of_ops(ops),
    ensures
        g1.rec() == g2.rec(),
        run_nodes(g1.rec(), s) == run_nodes(g2.rec(), s),
{
}

/// Copy a dependency list.
fn copy_ids(v: &Vec<usize>) -> (r: Vec<usize>)
    ensures
        r@ =~= v@,
{
    let mut r: Vec<usize> = Vec::new();
    let mut i: usize = 0;
    let n = v.len();
    while i < n
        invariant
            i <= n,
            n == v@.len(),
            r@ =~= v@.take(i as int),
        decreases n - i,
    {
        r.push(v[i]);
        proof {
            assert(v@.take(i as int).push(v@[i as int]) =~= v@.take(i as int + 1));
        }
        i = i + 1;
    }
    proof {
        assert(v@.take(n as int) =~= v@);
    }
    r
}

/// The compiled, replayable form of a recorded graph. The node set is fixed
/// at instantiation: nodes added to the graph afterwards do not affect it,
/// and one graph may be instantiated any number of times, independently.
pub struct InstantiatedGraph {
    nodes: Vec<GraphNode>,
}

impl InstantiatedGraph {
    /// The fixed node set, in record order.
    pub closed spec fn rec(self) -> Seq<NodeImg> {
        Seq::new(self.nodes@.len(), |i: int| self.nodes@[i]@)
    }

    /// An instantiation always holds a replayable copy DAG.
    pub open spec fn wf(self) -> bool {
        copy_only(self.rec())
    }

    /// Replay the graph against the device state. The recorded descriptors
    /// hold addresses, not mappings: each launch reads whatever is mapped at
    /// those addresses now, so remapping between launches redirects the copy.
    /// Succeeds exactly when every address the copies touch is mapped; on
    /// failure the state is untouched.
    pub fn launch(&self, c: &mut Ctx) -> (r: Result<(), Error>)
        requires
            old(c).wf(),
            self.wf(),
        ensures
            final(c).wf(),
            final(c).reserved() == old(c).reserved(),
            match r {
                Result::Ok(()) => graph_ok(old(c).table(), self.rec()) && final(c).table()
                    == run_nodes(self.rec(), old(c).table()) && same_layout(
                    old(c).table(),
                    final(c).table(),
                ),
                Result::Err(e) => e == Error::NotMapped && !graph_ok(old(c).table(), self.rec())
                    && *final(c) == *old(c),
            },
    {
        let n = self.nodes.len();
        let mut i: usize = 0;
        while i < n
            invariant
                i <= n,
                n == self.rec().len(),
                c.wf(),
                *c == *old(c),
                forall|j: int|
                    0 <= j < i ==> match (#[trigger] self.rec()[j]).kind {
                        NodeKindImg::Memcpy(d) => desc_ok(c.table(), d),
                        _ => true,
                    },
            decreases n - i,
        {
            match &self.nodes[i].kind {
                NodeKind::Memcpy(d) => {
                    if !check_desc(c, d) {
                        proof {
                            assert(self.rec()[i as int].kind == NodeKindImg::Memcpy(*d));
                        }
                        return Result::Err(Error::NotMapped);
                    }
                },
                _ => {},
            }
            i = i + 1;
        }
        let ghost t0 = c.table();
        let mut i: usize = 0;
        while i < n
            invariant
                i <= n,
                n == self.rec().len(),
                self.wf(),
                c.wf(),
                c.reserved() == old(c).reserved(),
                t0 == old(c).table(),
                graph_ok(t0, self.rec()),
                same_layout(t0, c.table()),
                c.table() == run_nodes(self.rec().take(i as int), t0),
            decreases n - i,
        {
            let ghost pre = c.table();
            match &self.nodes[i].kind {
                NodeKind::Memcpy(d) => {
                    proof {
                        assert(self.rec()[i as int].kind == NodeKindImg::Memcpy(*d));
                        assert(desc_ok(t0, *d));
                        lemma_same_layout_mapped(t0, c.table());
                        assert(desc_ok(c.table(), *d));
                    }
                    apply_copy(c, d);
                },
                NodeKind::Empty => {
                    proof {
                        assert(self.rec()[i as int].kind == NodeKindImg::Empty);
                    }
                },
                NodeKind::Kernel(_) => {
                    proof {
                        assert(!(self.rec()[i as int].kind is Kernel));
                        assert(false);
                    }
                },
            }
            proof {
                let r = self.rec();
                assert(r.take(i as int + 1).drop_last() =~= r.take(i as int));
                assert(r.take(i as int + 1).last() == r[i as int]);
                assert(c.table() == run_nodes(r.take(i as int + 1), t0));
            }
            i = i + 1;
        }
        proof {
            assert(self.rec().take(n as int) =~= self.rec());
        }
        Result::Ok(())
    }
}

impl Ctx {
    /// A fresh stream on this context.
    pub fn stream(&self) -> (r: Stream) {
        Stream {  }
    }

    /// Compile a recorded graph into an executable. Succeeds exactly when
    /// the graph is a copy DAG whose addresses are all mapped now; a copy
    /// into or out of an unmapped range is reported here, not at launch.
    pub fn instantiate(&self, g: &Graph) -> (r: Result<InstantiatedGraph, Error>)
        requires
            self.wf(),
        ensures
            match r {
                Result::Ok(ig) => ig.rec() == g.rec() && ig.wf() && copy_only(g.rec()) && graph_ok(
                    self.table(),
                    g.rec(),
                ),
                Result::Err(e) => (e == Error::InvalidLaunchConfig && !copy_only(g.rec())) || (e
                    == Error::NotMapped && !graph_ok(self.table(), g.rec())),
            },
    {
        let nodes = g.nodes();
        let n = nodes.len();
        let mut i: usize = 0;
        while i < n
            invariant
                i <= n,
                n == g.rec().len(),
                self.wf(),
                nodes@.len() == g.rec().len(),
                forall|j: int| 0 <= j < nodes@.len() ==> (#[trigger] nodes@[j])@ == g.rec()[j],
                forall|j: int| 0 <= j < i ==> !((#[trigger] g.rec()[j]).kind is Kernel),
            decreases n - i,
        {
            match &nodes[i].kind {
                NodeKind::Kernel(_) => {
                    proof {
                        assert(g.rec()[i as int].kind is Kernel);
                    }
                    return Result::Err(Error::InvalidLaunchConfig);
                },
                _ => {
                    proof {
                        assert(nodes@[i as int]@ == g.rec()[i as int]);
                    }
                },
            }
            i = i + 1;
        }
        let mut snapshot: Vec<GraphNode> = Vec::new();
        let mut i: usize = 0;
        while i < n
            invariant
                i <= n,
                n == g.rec().len(),
                self.wf(),
                nodes@.len() == g.rec().len(),
                forall|j: int| 0 <= j < nodes@.len() ==> (#[trigger] nodes@[j])@ == g.rec()[j],
                copy_only(g.rec()),
                snapshot@.len() == i,
                forall|j: int| 0 <= j < i ==> (#[trigger] snapshot@[j])@ == g.rec()[j],
                forall|j: int|
                    0 <= j < i ==> match (#[trigger] g.rec()[j]).kind {
                        NodeKindImg::Memcpy(d) => desc_ok(self.table(), d),
                        _ => true,
                    },
            decreases n - i,
        {
            let node = &nodes[i];
            let deps = copy_ids(&node.deps);
            let kind = match &node.kind {
                NodeKind::Empty => NodeKind::Empty,
                NodeKind::Memcpy(d) => {
                    if !check_desc(self, d) {
                        proof {
                            assert(g.rec()[i as int].kind == NodeKindImg::Memcpy(*d));
                        }
                        return Result::Err(Error::NotMapped);
                    }
                    NodeKind::Memcpy(*d)
                },
                NodeKind::Kernel(_) => {
                    proof {
                        assert(g.rec()[i as int].kind is Kernel);
                        assert(false);
                    }
                    NodeKind::Empty
                },
            };
            snapshot.push(GraphNode { kind, deps });
            proof {
                assert((snapshot@[i as int])@ =~~= g.rec()[i as int]);
            }
            i = i + 1;
        }
        let ig = InstantiatedGraph { nodes: snapshot };
        proof {
            assert(ig.rec() =~= g.rec());
        }
        Result::Ok(ig)
    }
}

} // verus!

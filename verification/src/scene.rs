//! The scene graph: nodes that may hold a vertex array to draw, linked to
//! child nodes whose placement is relative to theirs, and the order in which
//! drawing visits them.
use vstd::prelude::*;

verus! {

/// A node of the scene graph: the vertex array it draws, the number of
/// indices to draw from it (`-1` for a node that draws nothing and only
/// groups its children), and its children, by id.
#[derive(Debug)]
pub struct SceneNode {
    pub vao_id: u32,
    pub index_count: i32,
    pub children: Vec<usize>,
}

/// A node as the specifications see it.
pub struct NodeView {
    pub vao_id: u32,
    pub index_count: i32,
    pub children: Seq<usize>,
}

/// A node draws when its index count is not `-1`.
pub open spec fn is_drawable(n: NodeView) -> bool {
    n.index_count != -1
}

/// All nodes of a scene, addressed by id.
pub struct SceneGraph {
    nodes: Vec<SceneNode>,
}

/// One draw of the plan: the node drawn, its vertex array and index count,
/// and the position in the plan of the draw of the parent it was reached
/// from, when that parent draws. The node's placement is composed onto that
/// parent's placement; a node reached from a parent that does not draw is
/// placed from the origin.
#[derive(Clone, Copy, Debug, PartialEq, Eq, Structural)]
pub struct DrawStep {
    pub node: usize,
    pub vao_id: u32,
    pub index_count: i32,
    pub parent: Option<usize>,
}

/// The draws made when visiting `node`, reached from the draw at `parent`
/// (if any), when `base` draws come before it: first the node itself if it
/// draws, then its children in order, each followed by everything below it.
/// `None` when the visit goes deeper than `fuel` nodes.
pub open spec fn visit(
    g: Seq<NodeView>,
    node: int,
    parent: Option<usize>,
    base: int,
    fuel: nat,
) -> Option<Seq<DrawStep>>
    decreases fuel, 0nat,
{
    if fuel == 0 || !(0 <= node < g.len()) {
        None
    } else {
        let n = g[node];
        if is_drawable(n) {
            let step = DrawStep {
                node: node as usize,
                vao_id: n.vao_id,
                index_count: n.index_count,
                parent,
            };
            match visit_children(g, n.children, Some(base as usize), base + 1, (fuel - 1) as nat) {
                Some(rest) => Some(seq![step] + rest),
                None => None,
            }
        } else {
            visit_children(g, n.children, None, base, (fuel - 1) as nat)
        }
    }
}

/// The draws made when visiting each of `children` in turn, all reached
/// from the draw at `parent`, when `base` draws come before the first.
pub open spec fn visit_children(
    g: Seq<NodeView>,
    children: Seq<usize>,
    parent: Option<usize>,
    base: int,
    fuel: nat,
) -> Option<Seq<DrawStep>>
    decreases fuel, children.len() + 1,
{
    if children.len() == 0 {
        Some(Seq::<DrawStep>::empty())
    } else {
        match visit(g, children[0] as int, parent, base, fuel) {
            Some(first) => match visit_children(
                g,
                children.drop_first(),
                parent,
                base + first.len(),
                fuel,
            ) {
                Some(rest) => Some(first + rest),
                None => None,
            },
            None => None,
        }
    }
}

/// The draws of a frame, starting at `root`: `None` when the nodes below
/// `root` are linked in a cycle or nest deeper than the scene has nodes.
pub open spec fn scene_plan(g: Seq<NodeView>, root: int) -> Option<Seq<DrawStep>> {
    visit(g, root, None, 0, g.len())
}

impl SceneNode {
    /// The node as the specifications see it.
    pub open spec fn view_node(&self) -> NodeView {
        NodeView { vao_id: self.vao_id, index_count: self.index_count, children: self.children@ }
    }
}

impl View for SceneGraph {
    type V = Seq<NodeView>;

    closed spec fn view(&self) -> Seq<NodeView> {
        self.nodes@.map_values(|n: SceneNode| n.view_node())
    }
}

impl SceneGraph {
    /// Every child id names a node of the graph.
    pub open spec fn wf(&self) -> bool {
        forall|i: int, j: int|
            0 <= i < self@.len() && 0 <= j < self@[i].children.len() ==> #[trigger] self@[i].children[j]
                < self@.len()
    }

    /// A graph without nodes.
    pub fn new() -> (g: SceneGraph)
        ensures
            g@ == Seq::<NodeView>::empty(),
            g.wf(),
    {
        let g = SceneGraph { nodes: Vec::new() };
        assert(g@ =~= Seq::<NodeView>::empty());
        g
    }

    /// The number of nodes.
    pub fn node_count(&self) -> (n: usize)
        ensures
            n == self@.len(),
    {
        self.nodes.len()
    }

    /// A new node that draws `index_count` indices of vertex array `vao_id`,
    /// without children; its id is returned.
    pub fn add_node(&mut self, vao_id: u32, index_count: i32) -> (id: usize)
        ensures
            id == old(self)@.len(),
            final(self)@ == old(self)@.push(NodeView { vao_id, index_count, children: Seq::empty() }),
            old(self).wf() ==> final(self).wf(),
    {
        let id = self.nodes.len();
        self.nodes.push(SceneNode { vao_id, index_count, children: Vec::new() });
        proof {
            assert(self@ =~= old(self)@.push(
                NodeView { vao_id, index_count, children: Seq::empty() },
            ));
        }
        id
    }

    /// A new node that draws nothing and only groups its children; its id is
    /// returned.
    pub fn add_empty_node(&mut self) -> (id: usize)
        ensures
            id == old(self)@.len(),
            final(self)@ == old(self)@.push(NodeView { vao_id: 0, index_count: -1i32, children: Seq::empty() }),
            old(self).wf() ==> final(self).wf(),
    {
        self.add_node(0, -1)
    }

    /// Make `child` the last child of `parent`.
    pub fn add_child(&mut self, parent: usize, child: usize)
        requires
            parent < old(self)@.len(),
            child < old(self)@.len(),
        ensures
            final(self)@ == old(self)@.update(
                parent as int,
                NodeView { children: old(self)@[parent as int].children.push(child), ..old(self)@[parent as int] },
            ),
            old(self).wf() ==> final(self).wf(),
    {
        let mut children = self.nodes[parent].children.clone();
        proof {
            assert(children@ =~= old(self)@[parent as int].children);
        }
        children.push(child);
        let node = SceneNode {
            vao_id: self.nodes[parent].vao_id,
            index_count: self.nodes[parent].index_count,
            children,
        };
        self.nodes.set(parent, node);
        proof {
            assert(self@ =~= old(self)@.update(
                parent as int,
                NodeView { children: old(self)@[parent as int].children.push(child), ..old(self)@[parent as int] },
            ));
        }
    }
}

/// Every draw names a node of the graph that draws, with that node's vertex
/// array and index count.
pub open spec fn draws_match_nodes(g: Seq<NodeView>, s: Seq<DrawStep>) -> bool {
    forall|i: int|
        0 <= i < s.len() ==> {
            let st = #[trigger] s[i];
            &&& st.node < g.len()
            &&& is_drawable(g[st.node as int])
            &&& st.vao_id == g[st.node as int].vao_id
            &&& st.index_count == g[st.node as int].index_count
        }
}

/// Every draw that names a parent draw names an earlier one, of a node that
/// has the drawn node among its children.
pub open spec fn parents_precede(g: Seq<NodeView>, s: Seq<DrawStep>) -> bool {
    forall|i: int|
        0 <= i < s.len() ==> ((#[trigger] s[i]).parent matches Some(p) ==> {
            &&& p < i
            &&& g[s[p as int].node as int].children.contains(s[i].node)
        })
}

/// The parent links of the draws `s` of a visit of `node` that starts after
/// `base` draws, from the draw at `parent`: links into `s` point back to a
/// parent inside `s`; a link before `s` is the one the visit came from, and
/// only `node` itself carries it.
spec fn visit_links(
    g: Seq<NodeView>,
    s: Seq<DrawStep>,
    base: int,
    parent: Option<usize>,
    node: int,
) -> bool {
    forall|i: int|
        0 <= i < s.len() ==> ((#[trigger] s[i]).parent matches Some(p) ==> {
            &&& p < base + i
            &&& p >= base ==> g[s[p - base].node as int].children.contains(s[i].node)
            &&& p < base ==> parent == Some(p) && s[i].node == node
        })
}

/// As `visit_links`, for a visit of each of `children` in turn.
spec fn children_links(
    g: Seq<NodeView>,
    s: Seq<DrawStep>,
    base: int,
    parent: Option<usize>,
    children: Seq<usize>,
) -> bool {
    forall|i: int|
        0 <= i < s.len() ==> ((#[trigger] s[i]).parent matches Some(p) ==> {
            &&& p < base + i
            &&& p >= base ==> g[s[p - base].node as int].children.contains(s[i].node)
            &&& p < base ==> parent == Some(p) && children.contains(s[i].node)
        })
}

proof fn lemma_visit_structure(
    g: Seq<NodeView>,
    node: int,
    parent: Option<usize>,
    base: int,
    fuel: nat,
)
    requires
        0 <= base,
        0 <= node <= usize::MAX,
        parent matches Some(p) ==> p < base,
        visit(g, node, parent, base, fuel) is Some,
        base + visit(g, node, parent, base, fuel)->0.len() <= usize::MAX + 1,
    ensures
        draws_match_nodes(g, visit(g, node, parent, base, fuel)->0),
        visit_links(g, visit(g, node, parent, base, fuel)->0, base, parent, node),
    decreases fuel, 0nat,
{
    let n = g[node];
    let s = visit(g, node, parent, base, fuel)->0;
    if is_drawable(n) {
        let step = DrawStep {
            node: node as usize,
            vao_id: n.vao_id,
            index_count: n.index_count,
            parent,
        };
        let rest = visit_children(g, n.children, Some(base as usize), base + 1, (fuel - 1) as nat)->0;
        lemma_children_structure(g, n.children, Some(base as usize), base + 1, (fuel - 1) as nat);
        assert(s == seq![step] + rest);
        assert forall|i: int| 0 <= i < s.len() implies {
            let st = #[trigger] s[i];
            &&& st.node < g.len()
            &&& is_drawable(g[st.node as int])
            &&& st.vao_id == g[st.node as int].vao_id
            &&& st.index_count == g[st.node as int].index_count
        } by {
            if i > 0 {
                assert(s[i] == rest[i - 1]);
            }
        }
        assert forall|i: int| 0 <= i < s.len() implies ((#[trigger] s[i]).parent matches Some(p) ==> {
            &&& p < base + i
            &&& p >= base ==> g[s[p - base].node as int].children.contains(s[i].node)
            &&& p < base ==> parent == Some(p) && s[i].node == node
        }) by {
            if i > 0 {
                assert(s[i] == rest[i - 1]);
                if let Some(p) = s[i].parent {
                    let _ = rest[i - 1];
                    if p >= base + 1 {
                        assert(s[p - base] == rest[p - base - 1]);
                    }
                }
            }
        }
    } else {
        lemma_children_structure(g, n.children, None, base, (fuel - 1) as nat);
    }
}

proof fn lemma_children_structure(
    g: Seq<NodeView>,
    children: Seq<usize>,
    parent: Option<usize>,
    base: int,
    fuel: nat,
)
    requires
        0 <= base,
        parent matches Some(p) ==> p < base,
        visit_children(g, children, parent, base, fuel) is Some,
        base + visit_children(g, children, parent, base, fuel)->0.len() <= usize::MAX + 1,
    ensures
        draws_match_nodes(g, visit_children(g, children, parent, base, fuel)->0),
        children_links(g, visit_children(g, children, parent, base, fuel)->0, base, parent, children),
    decreases fuel, children.len() + 1,
{
    if children.len() > 0 {
        let s = visit_children(g, children, parent, base, fuel)->0;
        let first = visit(g, children[0] as int, parent, base, fuel)->0;
        let tail = children.drop_first();
        let rest = visit_children(g, tail, parent, base + first.len(), fuel)->0;
        lemma_visit_structure(g, children[0] as int, parent, base, fuel);
        lemma_children_structure(g, tail, parent, base + first.len(), fuel);
        assert(s == first + rest);
        assert(children.contains(children[0]));
        assert forall|i: int| 0 <= i < s.len() implies {
            let st = #[trigger] s[i];
            &&& st.node < g.len()
            &&& is_drawable(g[st.node as int])
            &&& st.vao_id == g[st.node as int].vao_id
            &&& st.index_count == g[st.node as int].index_count
        } by {
            if i < first.len() {
                assert(s[i] == first[i]);
            } else {
                assert(s[i] == rest[i - first.len()]);
            }
        }
        assert forall|i: int| 0 <= i < s.len() implies ((#[trigger] s[i]).parent matches Some(p) ==> {
            &&& p < base + i
            &&& p >= base ==> g[s[p - base].node as int].children.contains(s[i].node)
            &&& p < base ==> parent == Some(p) && children.contains(s[i].node)
        }) by {
            if i < first.len() {
                assert(s[i] == first[i]);
                if let Some(p) = s[i].parent {
                    let _ = first[i];
                    if p >= base {
                        assert(s[p - base] == first[p - base]);
                    }
                }
            } else {
                let j = i - first.len();
                assert(s[i] == rest[j]);
                if let Some(p) = s[i].parent {
                    let _ = rest[j];
                    if p >= base + first.len() {
                        assert(s[p - base] == rest[p - base - first.len()]);
                    }
                    if p < base + first.len() {
                        assert(tail.contains(s[i].node));
                        let k = choose|k: int| 0 <= k < tail.len() && tail[k] == s[i].node;
                        assert(children[k + 1] == s[i].node);
                    }
                }
            }
        }
    }
}

/// In any plan, each draw names a node that draws, with its vertex array
/// and index count, and a draw that is placed relative to a parent names an
/// earlier draw, of a node that has the drawn node as a child. So placements
/// can be composed front to back, each from one already computed.
pub proof fn lemma_plan_well_formed(g: Seq<NodeView>, root: usize)
    requires
        scene_plan(g, root as int) is Some,
        scene_plan(g, root as int)->0.len() <= usize::MAX + 1,
    ensures
        draws_match_nodes(g, scene_plan(g, root as int)->0),
        parents_precede(g, scene_plan(g, root as int)->0),
{
    lemma_visit_structure(g, root as int, None, 0, g.len());
    let s = scene_plan(g, root as int)->0;
    assert forall|i: int| 0 <= i < s.len() implies ((#[trigger] s[i]).parent matches Some(p) ==> {
        &&& p < i
        &&& g[s[p as int].node as int].children.contains(s[i].node)
    }) by {
        if let Some(p) = s[i].parent {
            let _ = s[i];
        }
    }
}

/// Visiting leaves that draw gives one draw each, in the order listed, all
/// placed relative to the same parent draw.
proof fn lemma_visit_leaves(
    g: Seq<NodeView>,
    children: Seq<usize>,
    parent: Option<usize>,
    base: int,
    fuel: nat,
)
    requires
        fuel >= 1,
        forall|j: int|
            0 <= j < children.len() ==> #[trigger] children[j] < g.len() && is_drawable(
                g[children[j] as int],
            ) && g[children[j] as int].children.len() == 0,
    ensures
        visit_children(g, children, parent, base, fuel) is Some,
        visit_children(g, children, parent, base, fuel)->0.len() == children.len(),
        forall|j: int|
            0 <= j < children.len() ==> #[trigger] visit_children(
                g,
                children,
                parent,
                base,
                fuel,
            )->0[j] == (DrawStep {
                node: children[j],
                vao_id: g[children[j] as int].vao_id,
                index_count: g[children[j] as int].index_count,
                parent,
            }),
    decreases children.len(),
{
    if children.len() > 0 {
        let c = children[0];
        let tail = children.drop_first();
        assert(c < g.len());
        assert(g[c as int].children.len() == 0);
        assert(g[c as int].children =~= Seq::<usize>::empty());
        let first = visit(g, c as int, parent, base, fuel)->0;
        assert(first =~= seq![
            DrawStep {
                node: c,
                vao_id: g[c as int].vao_id,
                index_count: g[c as int].index_count,
                parent,
            },
        ]);
        assert forall|j: int| 0 <= j < tail.len() implies #[trigger] tail[j] < g.len()
            && is_drawable(g[tail[j] as int]) && g[tail[j] as int].children.len() == 0 by {
            assert(tail[j] == children[j + 1]);
        }
        lemma_visit_leaves(g, tail, parent, base + 1, fuel);
        let rest = visit_children(g, tail, parent, base + 1, fuel)->0;
        let all = visit_children(g, children, parent, base, fuel)->0;
        assert(all == first + rest);
        assert forall|j: int| 0 <= j < children.len() implies #[trigger] all[j] == (DrawStep {
            node: children[j],
            vao_id: g[children[j] as int].vao_id,
            index_count: g[children[j] as int].index_count,
            parent,
        }) by {
            if j > 0 {
                assert(all[j] == rest[j - 1]);
                assert(tail[j - 1] == children[j]);
            }
        }
    }
}

/// Drawing a node whose children are leaves that draw: a root that draws is
/// drawn first, from the origin, and then each child in the order the
/// children were added, each placed relative to the root's draw; a root that
/// draws nothing gives just the children's draws, each from the origin.
pub proof fn lemma_plan_of_node_with_leaves(g: Seq<NodeView>, root: usize)
    requires
        root < g.len(),
        forall|j: int|
            0 <= j < g[root as int].children.len() ==> #[trigger] g[root as int].children[j]
                < g.len() && is_drawable(g[g[root as int].children[j] as int]) && g[g[root as int].children[j] as int].children.len() == 0,
    ensures
        ({
            let cs = g[root as int].children;
            let plan = scene_plan(g, root as int);
            let k: int = if is_drawable(g[root as int]) { 1 } else { 0 };
            &&& plan is Some
            &&& plan->0.len() == k + cs.len()
            &&& is_drawable(g[root as int]) ==> plan->0[0] == (DrawStep {
                node: root,
                vao_id: g[root as int].vao_id,
                index_count: g[root as int].index_count,
                parent: None,
            })
            &&& forall|j: int|
                0 <= j < cs.len() ==> #[trigger] plan->0[k + j] == (DrawStep {
                    node: cs[j],
                    vao_id: g[cs[j] as int].vao_id,
                    index_count: g[cs[j] as int].index_count,
                    parent: if is_drawable(g[root as int]) {
                        Some(0usize)
                    } else {
                        None
                    },
                })
        }),
{
    let cs = g[root as int].children;
    if cs.len() > 0 {
        assert(g[cs[0] as int].children.len() == 0);
        assert(cs[0] != root);
        assert(g.len() >= 2);
    }
    let fuel = (g.len() - 1) as nat;
    if is_drawable(g[root as int]) {
        if cs.len() > 0 {
            lemma_visit_leaves(g, cs, Some(0usize), 1, fuel);
        }
        let plan = scene_plan(g, root as int)->0;
        let rest = visit_children(g, cs, Some(0usize), 1, fuel);
        if cs.len() == 0 {
            assert(rest == Some(Seq::<DrawStep>::empty()));
        }
        assert forall|j: int| 0 <= j < cs.len() implies #[trigger] plan[1 + j] == (DrawStep {
            node: cs[j],
            vao_id: g[cs[j] as int].vao_id,
            index_count: g[cs[j] as int].index_count,
            parent: Some(0usize),
        }) by {
            assert(plan[1 + j] == rest->0[j]);
        }
    } else {
        if cs.len() > 0 {
            lemma_visit_leaves(g, cs, None, 0, fuel);
        } else {
            assert(visit_children(g, cs, None, 0, fuel) == Some(Seq::<DrawStep>::empty()));
        }
    }
}

/// The nodes can be ranked below the number of nodes so that every child
/// ranks below its parent: the links form no cycle (take a node's rank to be
/// the length of the longest path down from it), and every child id names a
/// node.
pub open spec fn layered(g: Seq<NodeView>, rank: Seq<nat>) -> bool {
    &&& rank.len() == g.len()
    &&& forall|i: int| 0 <= i < g.len() ==> #[trigger] rank[i] < g.len()
    &&& forall|i: int, j: int|
        0 <= i < g.len() && 0 <= j < g[i].children.len() ==> {
            &&& #[trigger] g[i].children[j] < g.len()
            &&& rank[g[i].children[j] as int] < rank[i]
        }
}

proof fn lemma_visit_total(
    g: Seq<NodeView>,
    rank: Seq<nat>,
    node: int,
    parent: Option<usize>,
    base: int,
    fuel: nat,
)
    requires
        layered(g, rank),
        0 <= node < g.len(),
        rank[node] < fuel,
    ensures
        visit(g, node, parent, base, fuel) is Some,
    decreases fuel, 0nat,
{
    let n = g[node];
    assert forall|j: int| 0 <= j < n.children.len() implies #[trigger] n.children[j] < g.len()
        && rank[n.children[j] as int] < fuel - 1 by {
        assert(g[node].children[j] < g.len());
    }
    if is_drawable(n) {
        lemma_children_total(g, rank, n.children, Some(base as usize), base + 1, (fuel - 1) as nat);
    } else {
        lemma_children_total(g, rank, n.children, None, base, (fuel - 1) as nat);
    }
}

proof fn lemma_children_total(
    g: Seq<NodeView>,
    rank: Seq<nat>,
    children: Seq<usize>,
    parent: Option<usize>,
    base: int,
    fuel: nat,
)
    requires
        layered(g, rank),
        forall|j: int|
            0 <= j < children.len() ==> #[trigger] children[j] < g.len() && rank[children[j] as int]
                < fuel,
    ensures
        visit_children(g, children, parent, base, fuel) is Some,
    decreases fuel, children.len() + 1,
{
    if children.len() > 0 {
        let first = visit(g, children[0] as int, parent, base, fuel);
        lemma_visit_total(g, rank, children[0] as int, parent, base, fuel);
        let tail = children.drop_first();
        assert forall|j: int| 0 <= j < tail.len() implies #[trigger] tail[j] < g.len()
            && rank[tail[j] as int] < fuel by {
            assert(tail[j] == children[j + 1]);
        }
        lemma_children_total(g, rank, tail, parent, base + first->0.len(), fuel);
    }
}

/// A scene whose links form no cycle always has a plan: drawing never runs
/// into an endless descent, from any root.
pub proof fn lemma_acyclic_scene_has_plan(g: Seq<NodeView>, rank: Seq<nat>, root: int)
    requires
        layered(g, rank),
        0 <= root < g.len(),
    ensures
        scene_plan(g, root) is Some,
{
    lemma_visit_total(g, rank, root, None, 0, g.len());
}

/// Every child id is larger than its parent's and names a node: the order in
/// which a scene is built when nodes are attached below nodes made before them.
pub open spec fn children_after_parents(g: Seq<NodeView>) -> bool {
    forall|i: int, j: int|
        0 <= i < g.len() && 0 <= j < g[i].children.len() ==> {
            &&& i < #[trigger] g[i].children[j]
            &&& g[i].children[j] < g.len()
        }
}

/// A scene whose children were all made after their parents has a plan from
/// any root.
pub proof fn lemma_ordered_scene_has_plan(g: Seq<NodeView>, root: int)
    requires
        children_after_parents(g),
        0 <= root < g.len(),
    ensures
        scene_plan(g, root) is Some,
{
    let n = g.len();
    let rank = Seq::new(n, |i: int| (n - 1 - i) as nat);
    assert forall|i: int, j: int|
        0 <= i < g.len() && 0 <= j < g[i].children.len() implies {
            &&& #[trigger] g[i].children[j] < g.len()
            &&& rank[g[i].children[j] as int] < rank[i]
        } by {}
    lemma_acyclic_scene_has_plan(g, rank, root);
}

/// A mesh uploaded to the GPU: its vertex array and its number of indices.
#[derive(Clone, Copy, Debug, PartialEq, Eq, Structural)]
pub struct MeshDraw {
    pub vao_id: u32,
    pub index_count: i32,
}

/// The meshes a helicopter is drawn from.
#[derive(Clone, Copy, Debug, PartialEq, Eq, Structural)]
pub struct HelicopterParts {
    pub body: MeshDraw,
    pub door: MeshDraw,
    pub main_rotor: MeshDraw,
    pub tail_rotor: MeshDraw,
}

/// The nodes of one helicopter in a scene graph.
#[derive(Clone, Copy, Debug, PartialEq, Eq, Structural)]
pub struct HelicopterNodes {
    pub body: usize,
    pub door: usize,
    pub main_rotor: usize,
    pub tail_rotor: usize,
}

/// A childless node drawing `mesh`.
pub open spec fn mesh_node(mesh: MeshDraw) -> NodeView {
    NodeView { vao_id: mesh.vao_id, index_count: mesh.index_count, children: Seq::empty() }
}

/// `g` with a helicopter added below `parent`: four new nodes (body, door,
/// main rotor, tail rotor), the body the last child of `parent`, the other
/// three the children of the body in that order.
pub open spec fn with_helicopter(g: Seq<NodeView>, parent: int, parts: HelicopterParts) -> Seq<
    NodeView,
> {
    let b = g.len() as usize;
    g.update(parent, NodeView { children: g[parent].children.push(b), ..g[parent] }).push(
        NodeView {
            children: seq![(b + 1) as usize, (b + 2) as usize, (b + 3) as usize],
            ..mesh_node(parts.body)
        },
    ).push(mesh_node(parts.door)).push(mesh_node(parts.main_rotor)).push(
        mesh_node(parts.tail_rotor),
    )
}

/// Adding a helicopter makes four new nodes at the end, each holding its own
/// mesh of the parts given: body, door, main rotor and tail rotor, in that
/// order. The body has the other three as its children, in that order, and
/// they have none; the body becomes the last child of `parent`, and every
/// other node stays as it was.
pub proof fn lemma_added_helicopter_parts(g: Seq<NodeView>, parent: int, parts: HelicopterParts)
    requires
        0 <= parent < g.len(),
        g.len() + 4 <= usize::MAX,
    ensures
        ({
            let h = with_helicopter(g, parent, parts);
            let b = g.len() as int;
            &&& h.len() == b + 4
            &&& h[b].vao_id == parts.body.vao_id && h[b].index_count == parts.body.index_count
            &&& h[b + 1].vao_id == parts.door.vao_id && h[b + 1].index_count
                == parts.door.index_count
            &&& h[b + 2].vao_id == parts.main_rotor.vao_id && h[b + 2].index_count
                == parts.main_rotor.index_count
            &&& h[b + 3].vao_id == parts.tail_rotor.vao_id && h[b + 3].index_count
                == parts.tail_rotor.index_count
            &&& h[b].children == seq![(b + 1) as usize, (b + 2) as usize, (b + 3) as usize]
            &&& h[b + 1].children.len() == 0
            &&& h[b + 2].children.len() == 0
            &&& h[b + 3].children.len() == 0
            &&& h[parent].children == g[parent].children.push(b as usize)
            &&& h[parent].vao_id == g[parent].vao_id
            &&& h[parent].index_count == g[parent].index_count
            &&& forall|i: int| 0 <= i < b && i != parent ==> #[trigger] h[i] == g[i]
        }),
{
}

/// In the helicopter scene, node 0 is an empty root whose only child is the
/// surface (node 1, drawing the surface mesh), and the `i`-th helicopter is
/// the `i`-th child of the surface: its body (node `2 + 4 * i`) draws the
/// body mesh and has the door, main rotor and tail rotor (the next three
/// nodes) as children, each drawing its own mesh.
pub proof fn lemma_helicopter_scene_parts(
    surface: MeshDraw,
    parts: HelicopterParts,
    count: nat,
    i: int,
)
    requires
        0 <= i < count,
        2 + 4 * count <= usize::MAX,
    ensures
        ({
            let s = helicopter_scene(surface, parts, count);
            let b = 2 + 4 * i;
            &&& s.len() == 2 + 4 * count
            &&& s[0].index_count == -1 && s[0].children == seq![1usize]
            &&& s[1].vao_id == surface.vao_id && s[1].index_count == surface.index_count
            &&& s[1].children.len() == count
            &&& s[1].children[i] == b
            &&& s[b].vao_id == parts.body.vao_id && s[b].index_count == parts.body.index_count
            &&& s[b + 1].vao_id == parts.door.vao_id && s[b + 1].index_count
                == parts.door.index_count
            &&& s[b + 2].vao_id == parts.main_rotor.vao_id && s[b + 2].index_count
                == parts.main_rotor.index_count
            &&& s[b + 3].vao_id == parts.tail_rotor.vao_id && s[b + 3].index_count
                == parts.tail_rotor.index_count
            &&& s[b].children == seq![(b + 1) as usize, (b + 2) as usize, (b + 3) as usize]
        }),
    decreases count,
{
    lemma_helicopter_scene_shape(surface, parts, count);
    let g = helicopter_scene(surface, parts, (count - 1) as nat);
    lemma_helicopter_scene_shape(surface, parts, (count - 1) as nat);
    lemma_added_helicopter_parts(g, 1, parts);
    if i < count - 1 {
        lemma_helicopter_scene_parts(surface, parts, (count - 1) as nat, i);
        let b = 2 + 4 * i;
        let h = helicopter_scene(surface, parts, count);
        assert(h[b] == g[b]);
        assert(h[b + 1] == g[b + 1]);
        assert(h[b + 2] == g[b + 2]);
        assert(h[b + 3] == g[b + 3]);
        assert(h[1].children[i] == g[1].children[i]);
    }
}

/// The root and the surface of the helicopter scene, and its size.
proof fn lemma_helicopter_scene_shape(surface: MeshDraw, parts: HelicopterParts, count: nat)
    requires
        2 + 4 * count <= usize::MAX,
    ensures
        ({
            let s = helicopter_scene(surface, parts, count);
            &&& s.len() == 2 + 4 * count
            &&& s[0].index_count == -1 && s[0].children == seq![1usize]
            &&& s[1].vao_id == surface.vao_id && s[1].index_count == surface.index_count
            &&& s[1].children.len() == count
        }),
    decreases count,
{
    if count > 0 {
        let g = helicopter_scene(surface, parts, (count - 1) as nat);
        lemma_helicopter_scene_shape(surface, parts, (count - 1) as nat);
        lemma_added_helicopter_parts(g, 1, parts);
    }
}

impl SceneGraph {
    /// Add a helicopter below `parent` and return its nodes.
    pub fn add_helicopter(&mut self, parent: usize, parts: &HelicopterParts) -> (nodes:
        HelicopterNodes)
        requires
            parent < old(self)@.len(),
            old(self)@.len() + 4 <= usize::MAX,
        ensures
            final(self)@ == with_helicopter(old(self)@, parent as int, *parts),
            nodes == (HelicopterNodes {
                body: old(self)@.len() as usize,
                door: (old(self)@.len() + 1) as usize,
                main_rotor: (old(self)@.len() + 2) as usize,
                tail_rotor: (old(self)@.len() + 3) as usize,
            }),
            final(self)@[nodes.body as int].vao_id == parts.body.vao_id,
            final(self)@[nodes.body as int].index_count == parts.body.index_count,
            final(self)@[nodes.door as int].vao_id == parts.door.vao_id,
            final(self)@[nodes.door as int].index_count == parts.door.index_count,
            final(self)@[nodes.main_rotor as int].vao_id == parts.main_rotor.vao_id,
            final(self)@[nodes.main_rotor as int].index_count == parts.main_rotor.index_count,
            final(self)@[nodes.tail_rotor as int].vao_id == parts.tail_rotor.vao_id,
            final(self)@[nodes.tail_rotor as int].index_count == parts.tail_rotor.index_count,
            final(self)@[nodes.body as int].children == seq![
                nodes.door,
                nodes.main_rotor,
                nodes.tail_rotor,
            ],
            final(self)@[parent as int].children == old(self)@[parent as int].children.push(
                nodes.body,
            ),
            children_after_parents(old(self)@) ==> children_after_parents(final(self)@),
    {
        let ghost g = self@;
        proof {
            lemma_added_helicopter_parts(g, parent as int, *parts);
        }
        let body = self.add_node(parts.body.vao_id, parts.body.index_count);
        let door = self.add_node(parts.door.vao_id, parts.door.index_count);
        let main_rotor = self.add_node(parts.main_rotor.vao_id, parts.main_rotor.index_count);
        let tail_rotor = self.add_node(parts.tail_rotor.vao_id, parts.tail_rotor.index_count);
        self.add_child(parent, body);
        self.add_child(body, door);
        self.add_child(body, main_rotor);
        self.add_child(body, tail_rotor);
        proof {
            let expected = with_helicopter(g, parent as int, *parts);
            assert(self@.len() == expected.len());
            assert forall|i: int| 0 <= i < self@.len() implies self@[i] == expected[i] by {
                if i == body as int {
                    assert(self@[i].children =~= expected[i].children);
                } else if i == parent as int {
                    assert(self@[i].children =~= expected[i].children);
                } else if i > body as int {
                    assert(self@[i].children =~= expected[i].children);
                }
            }
            assert(self@ =~= expected);
            if children_after_parents(g) {
                assert forall|i: int, j: int|
                    0 <= i < self@.len() && 0 <= j < self@[i].children.len() implies {
                        &&& i < #[trigger] self@[i].children[j]
                        &&& self@[i].children[j] < self@.len()
                    } by {
                    if i == parent as int && j == g[i].children.len() {
                    } else if i < g.len() {
                        assert(self@[i].children[j] == g[i].children[j]);
                    }
                }
            }
        }
        HelicopterNodes { body, door, main_rotor, tail_rotor }
    }
}

/// The helicopter scene: an empty root node, the surface below it, and
/// `count` helicopters below the surface.
pub open spec fn helicopter_scene(surface: MeshDraw, parts: HelicopterParts, count: nat) -> Seq<
    NodeView,
>
    decreases count,
{
    if count == 0 {
        seq![
            NodeView { vao_id: 0, index_count: -1i32, children: seq![1usize] },
            mesh_node(surface),
        ]
    } else {
        with_helicopter(helicopter_scene(surface, parts, (count - 1) as nat), 1, parts)
    }
}

/// The scene graph of the helicopter scene with the ids of its nodes.
pub struct HelicopterScene {
    pub graph: SceneGraph,
    pub root: usize,
    pub surface: usize,
    pub helicopters: Vec<HelicopterNodes>,
}

/// Build the scene of `count` helicopters above a surface. The `i`-th
/// helicopter's nodes follow one another from id `2 + 4 * i`.
pub fn build_helicopter_scene(surface: MeshDraw, parts: &HelicopterParts, count: usize) -> (scene:
    HelicopterScene)
    requires
        4 * count + 2 <= usize::MAX,
    ensures
        scene.graph@ == helicopter_scene(surface, *parts, count as nat),
        scene.root == 0,
        scene.surface == 1,
        scene.helicopters@.len() == count,
        forall|i: int|
            0 <= i < count ==> #[trigger] scene.helicopters@[i] == (HelicopterNodes {
                body: (2 + 4 * i) as usize,
                door: (3 + 4 * i) as usize,
                main_rotor: (4 + 4 * i) as usize,
                tail_rotor: (5 + 4 * i) as usize,
            }),
        forall|i: int|
            0 <= i < count ==> {
                let nodes = #[trigger] scene.helicopters@[i];
                let g = scene.graph@;
                &&& g[nodes.body as int].vao_id == parts.body.vao_id
                &&& g[nodes.body as int].index_count == parts.body.index_count
                &&& g[nodes.door as int].vao_id == parts.door.vao_id
                &&& g[nodes.door as int].index_count == parts.door.index_count
                &&& g[nodes.main_rotor as int].vao_id == parts.main_rotor.vao_id
                &&& g[nodes.main_rotor as int].index_count == parts.main_rotor.index_count
                &&& g[nodes.tail_rotor as int].vao_id == parts.tail_rotor.vao_id
                &&& g[nodes.tail_rotor as int].index_count == parts.tail_rotor.index_count
                &&& g[nodes.body as int].children == seq![
                    nodes.door,
                    nodes.main_rotor,
                    nodes.tail_rotor,
                ]
                &&& g[scene.surface as int].children[i] == nodes.body
            },
        children_after_parents(scene.graph@),
        scene_plan(scene.graph@, 0) is Some,
{
    let mut graph = SceneGraph::new();
    let root = graph.add_empty_node();
    let surface_node = graph.add_node(surface.vao_id, surface.index_count);
    graph.add_child(root, surface_node);
    assert(graph@ =~= helicopter_scene(surface, *parts, 0));
    let mut helicopters: Vec<HelicopterNodes> = Vec::new();
    let mut i: usize = 0;
    while i < count
        invariant
            4 * count + 2 <= usize::MAX,
            i <= count,
            surface_node == 1,
            graph@ == helicopter_scene(surface, *parts, i as nat),
            graph@.len() == 2 + 4 * i,
            children_after_parents(graph@),
            helicopters@.len() == i,
            forall|k: int|
                0 <= k < i ==> #[trigger] helicopters@[k] == (HelicopterNodes {
                    body: (2 + 4 * k) as usize,
                    door: (3 + 4 * k) as usize,
                    main_rotor: (4 + 4 * k) as usize,
                    tail_rotor: (5 + 4 * k) as usize,
                }),
        decreases count - i,
    {
        let nodes = graph.add_helicopter(surface_node, parts);
        assert(helicopter_scene(surface, *parts, (i + 1) as nat) == with_helicopter(
            helicopter_scene(surface, *parts, i as nat),
            1,
            *parts,
        ));
        helicopters.push(nodes);
        i = i + 1;
    }
    proof {
        lemma_ordered_scene_has_plan(graph@, 0);
        assert forall|i: int| 0 <= i < count implies {
            let nodes = #[trigger] helicopters@[i];
            let g = graph@;
            &&& g[nodes.body as int].vao_id == parts.body.vao_id
            &&& g[nodes.body as int].index_count == parts.body.index_count
            &&& g[nodes.door as int].vao_id == parts.door.vao_id
            &&& g[nodes.door as int].index_count == parts.door.index_count
            &&& g[nodes.main_rotor as int].vao_id == parts.main_rotor.vao_id
            &&& g[nodes.main_rotor as int].index_count == parts.main_rotor.index_count
            &&& g[nodes.tail_rotor as int].vao_id == parts.tail_rotor.vao_id
            &&& g[nodes.tail_rotor as int].index_count == parts.tail_rotor.index_count
            &&& g[nodes.body as int].children == seq![
                nodes.door,
                nodes.main_rotor,
                nodes.tail_rotor,
            ]
            &&& g[surface_node as int].children[i] == nodes.body
        } by {
            lemma_helicopter_scene_parts(surface, *parts, count as nat, i);
        }
    }
    HelicopterScene { graph, root, surface: surface_node, helicopters }
}

/// The helicopter scene always has a plan, whatever its meshes and however
/// many helicopters it holds.
pub proof fn lemma_helicopter_scene_has_plan(surface: MeshDraw, parts: HelicopterParts, count: nat)
    requires
        2 + 4 * count <= usize::MAX,
    ensures
        scene_plan(helicopter_scene(surface, parts, count), 0) is Some,
{
    lemma_helicopter_scene_ordered(surface, parts, count);
    lemma_ordered_scene_has_plan(helicopter_scene(surface, parts, count), 0);
}

proof fn lemma_helicopter_scene_ordered(surface: MeshDraw, parts: HelicopterParts, count: nat)
    requires
        2 + 4 * count <= usize::MAX,
    ensures
        children_after_parents(helicopter_scene(surface, parts, count)),
        helicopter_scene(surface, parts, count).len() == 2 + 4 * count,
    decreases count,
{
    if count > 0 {
        let g = helicopter_scene(surface, parts, (count - 1) as nat);
        lemma_helicopter_scene_ordered(surface, parts, (count - 1) as nat);
        let h = with_helicopter(g, 1, parts);
        assert forall|i: int, j: int|
            0 <= i < h.len() && 0 <= j < h[i].children.len() implies {
                &&& i < #[trigger] h[i].children[j]
                &&& h[i].children[j] < h.len()
            } by {
            if i < g.len() && !(i == 1 && j == g[1].children.len()) {
                assert(h[i].children[j] == g[i].children[j]);
            }
        }
    }
}

impl SceneGraph {
    /// Append to `out` the draws of visiting `node` from the draw at `parent`,
    /// going at most `fuel` nodes deep; `false` when that is too shallow or
    /// an id names no node.
    fn visit_node(
        &self,
        node: usize,
        parent: Option<usize>,
        fuel: usize,
        out: &mut Vec<DrawStep>,
    ) -> (ok: bool)
        ensures
            ok == visit(self@, node as int, parent, old(out)@.len() as int, fuel as nat) is Some,
            ok ==> final(out)@ == old(out)@ + visit(
                self@,
                node as int,
                parent,
                old(out)@.len() as int,
                fuel as nat,
            )->0,
        decreases fuel, 0nat,
    {
        if fuel == 0 || node >= self.nodes.len() {
            return false;
        }
        let ghost g = self@;
        assert(g[node as int] == self.nodes@[node as int].view_node());
        let vao_id = self.nodes[node].vao_id;
        let index_count = self.nodes[node].index_count;
        if index_count != -1 {
            let base = out.len();
            let step = DrawStep { node, vao_id, index_count, parent };
            out.push(step);
            let ok = self.visit_children(node, 0, Some(base), fuel - 1, out);
            proof {
                assert(g[node as int].children.skip(0) =~= g[node as int].children);
                if ok {
                    let rest = visit_children(
                        g,
                        g[node as int].children,
                        Some(base),
                        base + 1,
                        (fuel - 1) as nat,
                    )->0;
                    assert(out@ =~= old(out)@ + (seq![step] + rest));
                }
            }
            ok
        } else {
            let ok = self.visit_children(node, 0, None, fuel - 1, out);
            proof {
                assert(g[node as int].children.skip(0) =~= g[node as int].children);
            }
            ok
        }
    }

    /// Append to `out` the draws of visiting the children of `node` from
    /// position `from` on, each reached from the draw at `parent`.
    fn visit_children(
        &self,
        node: usize,
        from: usize,
        parent: Option<usize>,
        fuel: usize,
        out: &mut Vec<DrawStep>,
    ) -> (ok: bool)
        requires
            node < self@.len(),
            from <= self@[node as int].children.len(),
        ensures
            ok == visit_children(
                self@,
                self@[node as int].children.skip(from as int),
                parent,
                old(out)@.len() as int,
                fuel as nat,
            ) is Some,
            ok ==> final(out)@ == old(out)@ + visit_children(
                self@,
                self@[node as int].children.skip(from as int),
                parent,
                old(out)@.len() as int,
                fuel as nat,
            )->0,
        decreases fuel, self@[node as int].children.len() - from + 1,
    {
        let ghost g = self@;
        let ghost cs = g[node as int].children;
        assert(g[node as int] == self.nodes@[node as int].view_node());
        if from == self.nodes[node].children.len() {
            assert(cs.skip(from as int) =~= Seq::<usize>::empty());
            return true;
        }
        let child = self.nodes[node].children[from];
        proof {
            assert(cs.skip(from as int)[0] == child);
            assert(cs.skip(from as int).drop_first() =~= cs.skip(from + 1));
        }
        let ghost before = out@;
        if !self.visit_node(child, parent, fuel, out) {
            return false;
        }
        let ghost middle = out@;
        let ok = self.visit_children(node, from + 1, parent, fuel, out);
        proof {
            if ok {
                let first = visit(g, child as int, parent, before.len() as int, fuel as nat)->0;
                let rest = visit_children(
                    g,
                    cs.skip(from + 1),
                    parent,
                    middle.len() as int,
                    fuel as nat,
                )->0;
                assert(out@ =~= before + (first + rest));
            }
        }
        ok
    }

    /// The draws of a frame, starting at `root`, in the order a depth-first
    /// walk meets the nodes; `None` when the nodes below `root` are linked in
    /// a cycle, nest deeper than the scene has nodes, or an id names no node.
    pub fn draw_plan(&self, root: usize) -> (plan: Option<Vec<DrawStep>>)
        ensures
            plan is Some == scene_plan(self@, root as int) is Some,
            plan matches Some(steps) ==> steps@ == scene_plan(self@, root as int)->0,
            plan matches Some(steps) ==> draws_match_nodes(self@, steps@) && parents_precede(
                self@,
                steps@,
            ),
    {
        let mut out: Vec<DrawStep> = Vec::new();
        let fuel = self.nodes.len();
        assert(self@.len() == fuel);
        if self.visit_node(root, None, fuel, &mut out) {
            assert(out@ =~= Seq::<DrawStep>::empty() + scene_plan(self@, root as int)->0);
            proof {
                assert(out@.len() == out.len());
                lemma_plan_well_formed(self@, root);
            }
            Some(out)
        } else {
            None
        }
    }
}

} // verus!

//! The document: layers, nodes (optionally nested in container nodes) and
//! edges between nodes, all identified by string ids.
use vstd::prelude::*;
use vstd::std_specs::cmp::PartialEqSpecImpl;
use crate::ids::{first_free_id, first_free_numbered, strings_view};

verus! {

/// Identifies a layer.
#[derive(Debug, Hash, PartialOrd, Ord)]
pub struct LayerId(pub String);

/// Identifies a node.
#[derive(Debug, Hash, PartialOrd, Ord)]
pub struct NodeId(pub String);

/// Identifies an edge.
#[derive(Debug, Hash, PartialOrd, Ord)]
pub struct EdgeId(pub String);

impl View for LayerId {
    type V = Seq<char>;

    open spec fn view(&self) -> Seq<char> {
        self.0@
    }
}

impl View for NodeId {
    type V = Seq<char>;

    open spec fn view(&self) -> Seq<char> {
        self.0@
    }
}

impl View for EdgeId {
    type V = Seq<char>;

    open spec fn view(&self) -> Seq<char> {
        self.0@
    }
}

impl PartialEq for LayerId {
    fn eq(&self, other: &Self) -> (r: bool) {
        self.0 == other.0
    }
}

impl PartialEqSpecImpl for LayerId {
    open spec fn obeys_eq_spec() -> bool {
        true
    }

    open spec fn eq_spec(&self, other: &Self) -> bool {
        self@ == other@
    }
}

impl Eq for LayerId {

}

impl PartialEq for NodeId {
    fn eq(&self, other: &Self) -> (r: bool) {
        self.0 == other.0
    }
}

impl PartialEqSpecImpl for NodeId {
    open spec fn obeys_eq_spec() -> bool {
        true
    }

    open spec fn eq_spec(&self, other: &Self) -> bool {
        self@ == other@
    }
}

impl Eq for NodeId {

}

impl PartialEq for EdgeId {
    fn eq(&self, other: &Self) -> (r: bool) {
        self.0 == other.0
    }
}

impl PartialEqSpecImpl for EdgeId {
    open spec fn obeys_eq_spec() -> bool {
        true
    }

    open spec fn eq_spec(&self, other: &Self) -> bool {
        self@ == other@
    }
}

impl Eq for EdgeId {

}

impl Clone for LayerId {
    fn clone(&self) -> (r: Self)
        ensures
            r == *self,
    {
        LayerId(self.0.clone())
    }
}

impl Clone for NodeId {
    fn clone(&self) -> (r: Self)
        ensures
            r == *self,
    {
        NodeId(self.0.clone())
    }
}

impl Clone for EdgeId {
    fn clone(&self) -> (r: Self)
        ensures
            r == *self,
    {
        EdgeId(self.0.clone())
    }
}


/// A layer: nodes and edges in it are shown only while it's active.
#[derive(Debug)]
pub struct Layer {
    pub id: LayerId,
    pub name: String,
    pub active: bool,
}

/// A node of the graph.
#[derive(Debug)]
pub struct Node {
    pub id: NodeId,
    pub text: String,
    /// Layers this node belongs to. A node with no layers is always visible.
    pub layers: Vec<LayerId>,
    /// Container nodes this node is drawn within. The first visible parent is
    /// where the node is laid out; it's also drawn (as a "split" copy) in the
    /// others.
    pub parents: Vec<NodeId>,
}

/// A directed edge between two nodes.
#[derive(Debug)]
pub struct Edge {
    pub id: EdgeId,
    pub text: String,
    pub source: NodeId,
    pub dest: NodeId,
    pub layer: Option<LayerId>,
}

/// A whole document.
#[derive(Debug)]
pub struct Document {
    pub layers: Vec<Layer>,
    pub selected_layer: Option<LayerId>,
    pub nodes: Vec<Node>,
    pub edges: Vec<Edge>,
}

/// The value a layer's `active` flag takes when a stored document leaves it
/// out.
pub fn default_true() -> (r: bool)
    ensures
        r,
{
    true
}

pub struct LayerView {
    pub id: Seq<char>,
    pub name: Seq<char>,
    pub active: bool,
}

pub struct NodeView {
    pub id: Seq<char>,
    pub text: Seq<char>,
    pub layers: Seq<Seq<char>>,
    pub parents: Seq<Seq<char>>,
}

pub struct EdgeView {
    pub id: Seq<char>,
    pub text: Seq<char>,
    pub source: Seq<char>,
    pub dest: Seq<char>,
    pub layer: Option<Seq<char>>,
}

pub struct DocView {
    pub layers: Seq<LayerView>,
    pub selected_layer: Option<Seq<char>>,
    pub nodes: Seq<NodeView>,
    pub edges: Seq<EdgeView>,
}

pub open spec fn layer_ids_view(v: Seq<LayerId>) -> Seq<Seq<char>> {
    v.map_values(|l: LayerId| l@)
}

pub open spec fn node_ids_view(v: Seq<NodeId>) -> Seq<Seq<char>> {
    v.map_values(|n: NodeId| n@)
}

pub open spec fn opt_layer_view(o: Option<LayerId>) -> Option<Seq<char>> {
    match o {
        Some(l) => Some(l@),
        None => None,
    }
}

impl View for Layer {
    type V = LayerView;

    open spec fn view(&self) -> LayerView {
        LayerView { id: self.id@, name: self.name@, active: self.active }
    }
}

impl View for Node {
    type V = NodeView;

    open spec fn view(&self) -> NodeView {
        NodeView {
            id: self.id@,
            text: self.text@,
            layers: layer_ids_view(self.layers@),
            parents: node_ids_view(self.parents@),
        }
    }
}

impl View for Edge {
    type V = EdgeView;

    open spec fn view(&self) -> EdgeView {
        EdgeView {
            id: self.id@,
            text: self.text@,
            source: self.source@,
            dest: self.dest@,
            layer: opt_layer_view(self.layer),
        }
    }
}

pub open spec fn layers_view(v: Seq<Layer>) -> Seq<LayerView> {
    v.map_values(|l: Layer| l@)
}

pub open spec fn nodes_view(v: Seq<Node>) -> Seq<NodeView> {
    v.map_values(|n: Node| n@)
}

pub open spec fn edges_view(v: Seq<Edge>) -> Seq<EdgeView> {
    v.map_values(|e: Edge| e@)
}

impl View for Document {
    type V = DocView;

    open spec fn view(&self) -> DocView {
        DocView {
            layers: layers_view(self.layers@),
            selected_layer: opt_layer_view(self.selected_layer),
            nodes: nodes_view(self.nodes@),
            edges: edges_view(self.edges@),
        }
    }
}

/// Clones a list of layer ids, keeping their view.
pub fn clone_layer_ids(v: &Vec<LayerId>) -> (r: Vec<LayerId>)
    ensures
        r@ == v@,
{
    let mut r: Vec<LayerId> = Vec::new();
    for i in 0..v.len()
        invariant
            r@ == v@.take(i as int),
    {
        r.push(v[i].clone());
        assert(r@ =~= v@.take(i + 1));
    }
    assert(v@.take(v.len() as int) =~= v@);
    r
}

/// Clones a list of node ids, keeping their view.
pub fn clone_node_ids(v: &Vec<NodeId>) -> (r: Vec<NodeId>)
    ensures
        r@ == v@,
{
    let mut r: Vec<NodeId> = Vec::new();
    for i in 0..v.len()
        invariant
            r@ == v@.take(i as int),
    {
        r.push(v[i].clone());
        assert(r@ =~= v@.take(i + 1));
    }
    assert(v@.take(v.len() as int) =~= v@);
    r
}

pub fn clone_opt_layer(o: &Option<LayerId>) -> (r: Option<LayerId>)
    ensures
        r == *o,
{
    match o {
        Some(l) => Some(l.clone()),
        None => None,
    }
}

impl Clone for Layer {
    fn clone(&self) -> (r: Self)
        ensures
            r == *self,
    {
        Layer { id: self.id.clone(), name: self.name.clone(), active: self.active }
    }
}

impl Clone for Node {
    fn clone(&self) -> (r: Self)
        ensures
            r@ == self@,
    {
        Node {
            id: self.id.clone(),
            text: self.text.clone(),
            layers: clone_layer_ids(&self.layers),
            parents: clone_node_ids(&self.parents),
        }
    }
}

impl Clone for Edge {
    fn clone(&self) -> (r: Self)
        ensures
            r == *self,
    {
        Edge {
            id: self.id.clone(),
            text: self.text.clone(),
            source: self.source.clone(),
            dest: self.dest.clone(),
            layer: clone_opt_layer(&self.layer),
        }
    }
}

impl Clone for Document {
    fn clone(&self) -> (r: Self)
        ensures
            r@ == self@,
    {
        let mut layers: Vec<Layer> = Vec::new();
        for i in 0..self.layers.len()
            invariant
                layers@ == self.layers@.take(i as int),
        {
            layers.push(self.layers[i].clone());
            assert(layers@ =~= self.layers@.take(i + 1));
        }
        assert(self.layers@.take(self.layers.len() as int) =~= self.layers@);
        let mut nodes: Vec<Node> = Vec::new();
        for i in 0..self.nodes.len()
            invariant
                nodes.len() == i,
                forall|k: int| 0 <= k < i ==> nodes@[k]@ == self.nodes@[k]@,
        {
            nodes.push(self.nodes[i].clone());
        }
        assert(nodes_view(nodes@) =~= nodes_view(self.nodes@));
        let mut edges: Vec<Edge> = Vec::new();
        for i in 0..self.edges.len()
            invariant
                edges@ == self.edges@.take(i as int),
        {
            edges.push(self.edges[i].clone());
            assert(edges@ =~= self.edges@.take(i + 1));
        }
        assert(self.edges@.take(self.edges.len() as int) =~= self.edges@);
        Document { layers, selected_layer: clone_opt_layer(&self.selected_layer), nodes, edges }
    }
}

impl Default for Document {
    fn default() -> (r: Self)
        ensures
            r@.layers.len() == 0,
            r@.selected_layer is None,
            r@.nodes.len() == 0,
            r@.edges.len() == 0,
    {
        Document { layers: Vec::new(), selected_layer: None, nodes: Vec::new(), edges: Vec::new() }
    }
}

fn layer_ids_eq(a: &Vec<LayerId>, b: &Vec<LayerId>) -> (r: bool)
    ensures
        r == (layer_ids_view(a@) == layer_ids_view(b@)),
{
    if a.len() != b.len() {
        assert(layer_ids_view(a@).len() != layer_ids_view(b@).len());
        return false;
    }
    for i in 0..a.len()
        invariant
            a.len() == b.len(),
            forall|k: int| 0 <= k < i ==> a@[k]@ == b@[k]@,
    {
        if a[i] != b[i] {
            assert(layer_ids_view(a@)[i as int] != layer_ids_view(b@)[i as int]);
            return false;
        }
    }
    assert(layer_ids_view(a@) =~= layer_ids_view(b@));
    true
}

fn node_ids_eq(a: &Vec<NodeId>, b: &Vec<NodeId>) -> (r: bool)
    ensures
        r == (node_ids_view(a@) == node_ids_view(b@)),
{
    if a.len() != b.len() {
        assert(node_ids_view(a@).len() != node_ids_view(b@).len());
        return false;
    }
    for i in 0..a.len()
        invariant
            a.len() == b.len(),
            forall|k: int| 0 <= k < i ==> a@[k]@ == b@[k]@,
    {
        if a[i] != b[i] {
            assert(node_ids_view(a@)[i as int] != node_ids_view(b@)[i as int]);
            return false;
        }
    }
    assert(node_ids_view(a@) =~= node_ids_view(b@));
    true
}

fn opt_layer_eq(a: &Option<LayerId>, b: &Option<LayerId>) -> (r: bool)
    ensures
        r == (opt_layer_view(*a) == opt_layer_view(*b)),
{
    match (a, b) {
        (Some(x), Some(y)) => *x == *y,
        (None, None) => true,
        _ => false,
    }
}

impl PartialEq for Layer {
    fn eq(&self, other: &Self) -> (r: bool) {
        self.id == other.id && self.name == other.name && self.active == other.active
    }
}

impl PartialEqSpecImpl for Layer {
    open spec fn obeys_eq_spec() -> bool {
        true
    }

    open spec fn eq_spec(&self, other: &Self) -> bool {
        self@ == other@
    }
}

impl PartialEq for Node {
    fn eq(&self, other: &Self) -> (r: bool) {
        self.id == other.id && self.text == other.text && layer_ids_eq(&self.layers, &other.layers)
            && node_ids_eq(&self.parents, &other.parents)
    }
}

impl PartialEqSpecImpl for Node {
    open spec fn obeys_eq_spec() -> bool {
        true
    }

    open spec fn eq_spec(&self, other: &Self) -> bool {
        self@ == other@
    }
}

impl PartialEq for Edge {
    fn eq(&self, other: &Self) -> (r: bool) {
        self.id == other.id && self.text == other.text && self.source == other.source && self.dest
            == other.dest && opt_layer_eq(&self.layer, &other.layer)
    }
}

impl PartialEqSpecImpl for Edge {
    open spec fn obeys_eq_spec() -> bool {
        true
    }

    open spec fn eq_spec(&self, other: &Self) -> bool {
        self@ == other@
    }
}

impl PartialEq for Document {
    fn eq(&self, other: &Self) -> (r: bool) {
        if !opt_layer_eq(&self.selected_layer, &other.selected_layer) {
            return false;
        }
        if self.layers.len() != other.layers.len() || self.nodes.len() != other.nodes.len()
            || self.edges.len() != other.edges.len() {
            assert(self@.layers.len() != other@.layers.len() || self@.nodes.len() != other@.nodes.len()
                || self@.edges.len() != other@.edges.len());
            return false;
        }
        for i in 0..self.layers.len()
            invariant
                self.layers.len() == other.layers.len(),
                forall|k: int| 0 <= k < i ==> self.layers@[k]@ == other.layers@[k]@,
        {
            if self.layers[i] != other.layers[i] {
                assert(self@.layers[i as int] != other@.layers[i as int]);
                return false;
            }
        }
        for i in 0..self.nodes.len()
            invariant
                self.nodes.len() == other.nodes.len(),
                forall|k: int| 0 <= k < i ==> self.nodes@[k]@ == other.nodes@[k]@,
        {
            if self.nodes[i] != other.nodes[i] {
                assert(self@.nodes[i as int] != other@.nodes[i as int]);
                return false;
            }
        }
        for i in 0..self.edges.len()
            invariant
                self.edges.len() == other.edges.len(),
                forall|k: int| 0 <= k < i ==> self.edges@[k]@ == other.edges@[k]@,
        {
            if self.edges[i] != other.edges[i] {
                assert(self@.edges[i as int] != other@.edges[i as int]);
                return false;
            }
        }
        assert(self@.layers =~= other@.layers);
        assert(self@.nodes =~= other@.nodes);
        assert(self@.edges =~= other@.edges);
        true
    }
}

impl PartialEqSpecImpl for Document {
    open spec fn obeys_eq_spec() -> bool {
        true
    }

    open spec fn eq_spec(&self, other: &Self) -> bool {
        self@ == other@
    }
}

/// Position of the first occurrence of `k` in `ids`, or -1 if there is none.
pub open spec fn index_of(ids: Seq<Seq<char>>, k: Seq<char>) -> int
    decreases ids.len(),
{
    if ids.len() == 0 {
        -1
    } else {
        let p = index_of(ids.drop_last(), k);
        if p >= 0 {
            p
        } else if ids.last() == k {
            ids.len() - 1
        } else {
            -1
        }
    }
}

/// `index_of` is the first position holding the key, or -1 when no position
/// holds it.
pub broadcast proof fn lemma_index_of(ids: Seq<Seq<char>>, k: Seq<char>)
    ensures
        -1 <= #[trigger] index_of(ids, k) < ids.len(),
        index_of(ids, k) >= 0 ==> ids[index_of(ids, k)] == k,
        forall|j: int|
            0 <= j < ids.len() && (index_of(ids, k) < 0 || j < index_of(ids, k)) ==> ids[j] != k,
    decreases ids.len(),
{
    if ids.len() > 0 {
        lemma_index_of(ids.drop_last(), k);
        assert forall|j: int|
            0 <= j < ids.len() && (index_of(ids, k) < 0 || j < index_of(ids, k)) implies ids[j]
            != k by {
            if j < ids.len() - 1 {
                assert(ids.drop_last()[j] == ids[j]);
            }
        }
    }
}

/// The first position holding `k` is the position `i` when `k` is at `i` and
/// nowhere before it.
pub proof fn lemma_index_of_unique(ids: Seq<Seq<char>>, k: Seq<char>, i: int)
    requires
        0 <= i < ids.len(),
        ids[i] == k,
        forall|j: int| 0 <= j < i ==> ids[j] != k,
    ensures
        index_of(ids, k) == i,
{
    lemma_index_of(ids, k);
}

pub open spec fn layer_ids(s: Seq<LayerView>) -> Seq<Seq<char>> {
    s.map_values(|l: LayerView| l.id)
}

pub open spec fn node_ids(s: Seq<NodeView>) -> Seq<Seq<char>> {
    s.map_values(|n: NodeView| n.id)
}

pub open spec fn edge_ids(s: Seq<EdgeView>) -> Seq<Seq<char>> {
    s.map_values(|e: EdgeView| e.id)
}

/// Position of the first layer with the id, or -1.
pub open spec fn layer_pos(d: DocView, id: Seq<char>) -> int {
    index_of(layer_ids(d.layers), id)
}

/// Position of the first node with the id, or -1.
pub open spec fn node_pos(d: DocView, id: Seq<char>) -> int {
    index_of(node_ids(d.nodes), id)
}

/// Position of the first edge with the id, or -1.
pub open spec fn edge_pos(d: DocView, id: Seq<char>) -> int {
    index_of(edge_ids(d.edges), id)
}

/// A layer is active when it exists and is switched on.
pub open spec fn spec_layer_active(d: DocView, id: Seq<char>) -> bool {
    layer_pos(d, id) >= 0 && d.layers[layer_pos(d, id)].active
}

/// A node is visible if it has no layers or at least one of its layers is
/// active.
pub open spec fn spec_node_visible(d: DocView, n: NodeView) -> bool {
    n.layers.len() == 0 || exists|i: int| 0 <= i < n.layers.len() && spec_layer_active(d, n.layers[i])
}

/// An edge is visible if both ends exist and are visible and its layer (if
/// any) is active.
pub open spec fn spec_edge_visible(d: DocView, e: EdgeView) -> bool {
    &&& (e.layer matches Some(l) ==> spec_layer_active(d, l))
    &&& node_pos(d, e.source) >= 0
    &&& node_pos(d, e.dest) >= 0
    &&& spec_node_visible(d, d.nodes[node_pos(d, e.source)])
    &&& spec_node_visible(d, d.nodes[node_pos(d, e.dest)])
}

/// The edge joins `a` and `b`, in either direction.
pub open spec fn joins(e: EdgeView, a: Seq<char>, b: Seq<char>) -> bool {
    (e.source == a && e.dest == b) || (e.source == b && e.dest == a)
}

pub open spec fn edge_refs_view(v: Seq<&Edge>) -> Seq<EdgeView> {
    v.map_values(|e: &Edge| e@)
}

pub open spec fn node_exists(d: DocView, id: Seq<char>) -> bool {
    node_ids(d.nodes).contains(id)
}

pub open spec fn layer_exists(d: DocView, id: Seq<char>) -> bool {
    layer_ids(d.layers).contains(id)
}

/// The parent ids of a node that sanitizing keeps: existing nodes other than
/// the node itself.
pub open spec fn kept_parent(node_ids: Seq<Seq<char>>, own: Seq<char>) -> spec_fn(Seq<char>) -> bool {
    |p: Seq<char>| p != own && node_ids.contains(p)
}

pub open spec fn kept_layer(layer_ids: Seq<Seq<char>>) -> spec_fn(Seq<char>) -> bool {
    |l: Seq<char>| layer_ids.contains(l)
}

/// An edge is kept by sanitizing when both of its ends exist.
pub open spec fn kept_edge(node_ids: Seq<Seq<char>>) -> spec_fn(EdgeView) -> bool {
    |e: EdgeView| node_ids.contains(e.source) && node_ids.contains(e.dest)
}

pub open spec fn sanitized_layer_ref(layer_ids: Seq<Seq<char>>, l: Option<Seq<char>>) -> Option<
    Seq<char>,
> {
    match l {
        Some(id) => if layer_ids.contains(id) {
            Some(id)
        } else {
            None
        },
        None => None,
    }
}

pub open spec fn sanitized_node(node_ids: Seq<Seq<char>>, layer_ids: Seq<Seq<char>>) -> spec_fn(
    NodeView,
) -> NodeView {
    |n: NodeView|
        NodeView {
            parents: n.parents.filter(kept_parent(node_ids, n.id)),
            layers: n.layers.filter(kept_layer(layer_ids)),
            ..n
        }
}

pub open spec fn sanitized_edge(layer_ids: Seq<Seq<char>>) -> spec_fn(EdgeView) -> EdgeView {
    |e: EdgeView| EdgeView { layer: sanitized_layer_ref(layer_ids, e.layer), ..e }
}

/// The document with every reference to something missing dropped: edges
/// with a missing end, parents that are missing (or the node itself), and
/// layer references to missing layers.
pub open spec fn spec_sanitize(d: DocView) -> DocView {
    let nids = node_ids(d.nodes);
    let lids = layer_ids(d.layers);
    DocView {
        layers: d.layers,
        selected_layer: sanitized_layer_ref(lids, d.selected_layer),
        nodes: d.nodes.map_values(sanitized_node(nids, lids)),
        edges: d.edges.filter(kept_edge(nids)).map_values(sanitized_edge(lids)),
    }
}

/// Every reference in the document points at something that exists.
pub open spec fn refs_ok(d: DocView) -> bool {
    &&& forall|i: int|
        0 <= i < d.edges.len() ==> node_exists(d, #[trigger] d.edges[i].source) && node_exists(
            d,
            d.edges[i].dest,
        )
    &&& forall|i: int|
        0 <= i < d.edges.len() ==> (#[trigger] d.edges[i].layer matches Some(l) ==> layer_exists(d, l))
    &&& forall|i: int, j: int|
        0 <= i < d.nodes.len() && 0 <= j < d.nodes[i].parents.len() ==> #[trigger] d.nodes[i].parents[j]
            != d.nodes[i].id && node_exists(d, d.nodes[i].parents[j])
    &&& forall|i: int, j: int|
        0 <= i < d.nodes.len() && 0 <= j < d.nodes[i].layers.len() ==> layer_exists(
            d,
            #[trigger] d.nodes[i].layers[j],
        )
    &&& (d.selected_layer matches Some(l) ==> layer_exists(d, l))
}

proof fn lemma_node_ids_push(v: Seq<NodeId>, x: NodeId)
    ensures
        node_ids_view(v.push(x)) == node_ids_view(v).push(x@),
{
    assert(node_ids_view(v.push(x)) =~= node_ids_view(v).push(x@));
}

proof fn lemma_layer_ids_push(v: Seq<LayerId>, x: LayerId)
    ensures
        layer_ids_view(v.push(x)) == layer_ids_view(v).push(x@),
{
    assert(layer_ids_view(v.push(x)) =~= layer_ids_view(v).push(x@));
}

proof fn lemma_edges_push(v: Seq<Edge>, x: Edge)
    ensures
        edges_view(v.push(x)) == edges_view(v).push(x@),
{
    assert(edges_view(v.push(x)) =~= edges_view(v).push(x@));
}

/// A filter that keeps as many items as it was given keeps all of them.
pub proof fn lemma_filter_full<A>(s: Seq<A>, p: spec_fn(A) -> bool)
    ensures
        s.filter(p).len() == s.len() ==> s.filter(p) == s,
        s.filter(p).len() <= s.len(),
    decreases s.len(),
{
    reveal(Seq::filter);
    if s.len() > 0 {
        lemma_filter_full(s.drop_last(), p);
        if s.filter(p).len() == s.len() {
            assert(p(s.last()));
            assert(s.drop_last().filter(p) =~= s.drop_last());
            assert(s =~= s.drop_last().push(s.last()));
        }
    }
}

/// A filter that every item passes keeps all of them.
pub proof fn lemma_filter_all<A>(s: Seq<A>, p: spec_fn(A) -> bool)
    requires
        forall|i: int| 0 <= i < s.len() ==> p(#[trigger] s[i]),
    ensures
        s.filter(p) == s,
    decreases s.len(),
{
    reveal(Seq::filter);
    if s.len() > 0 {
        lemma_filter_all(s.drop_last(), p);
        assert(s =~= s.drop_last().push(s.last()));
    }
}

/// After sanitizing, every reference in the document points at something
/// that exists.
pub proof fn lemma_sanitize_refs_ok(d: DocView)
    ensures
        refs_ok(spec_sanitize(d)),
{
    broadcast use vstd::seq_lib::group_filter_ensures;

    let s = spec_sanitize(d);
    let nids = node_ids(d.nodes);
    let lids = layer_ids(d.layers);
    assert(node_ids(s.nodes) =~= nids);
    assert(layer_ids(s.layers) =~= lids);
    let kept = d.edges.filter(kept_edge(nids));
    assert forall|i: int| 0 <= i < s.edges.len() implies node_exists(s, #[trigger] s.edges[i].source)
        && node_exists(s, s.edges[i].dest) by {
        assert(kept_edge(nids)(kept[i]));
    }
    assert forall|i: int, j: int|
        0 <= i < s.nodes.len() && 0 <= j < s.nodes[i].parents.len() implies #[trigger] s.nodes[i].parents[j]
        != s.nodes[i].id && node_exists(s, s.nodes[i].parents[j]) by {
        assert(kept_parent(nids, d.nodes[i].id)(s.nodes[i].parents[j]));
    }
    assert forall|i: int, j: int|
        0 <= i < s.nodes.len() && 0 <= j < s.nodes[i].layers.len() implies layer_exists(
        s,
        #[trigger] s.nodes[i].layers[j],
    ) by {
        assert(kept_layer(lids)(s.nodes[i].layers[j]));
    }
}

/// A document whose references all point at existing things is left as it
/// is by sanitizing.
pub proof fn lemma_sanitize_keeps_sound(d: DocView)
    requires
        refs_ok(d),
    ensures
        spec_sanitize(d) == d,
{
    let nids = node_ids(d.nodes);
    let lids = layer_ids(d.layers);
    assert forall|i: int| 0 <= i < d.edges.len() implies kept_edge(nids)(#[trigger] d.edges[i]) by {
        assert(node_exists(d, d.edges[i].source));
    }
    lemma_filter_all(d.edges, kept_edge(nids));
    assert forall|i: int| 0 <= i < d.nodes.len() implies sanitized_node(nids, lids)(#[trigger] d.nodes[i])
        == d.nodes[i] by {
        let n = d.nodes[i];
        assert forall|j: int| 0 <= j < n.parents.len() implies kept_parent(nids, n.id)(
            #[trigger] n.parents[j],
        ) by {
            assert(d.nodes[i].parents[j] != d.nodes[i].id);
        }
        lemma_filter_all(n.parents, kept_parent(nids, n.id));
        assert forall|j: int| 0 <= j < n.layers.len() implies kept_layer(lids)(#[trigger] n.layers[j]) by {
            assert(layer_exists(d, d.nodes[i].layers[j]));
        }
        lemma_filter_all(n.layers, kept_layer(lids));
    }
    assert(spec_sanitize(d).nodes =~= d.nodes);
    assert forall|i: int| 0 <= i < d.edges.len() implies sanitized_edge(lids)(#[trigger] d.edges[i])
        == d.edges[i] by {
        assert(d.edges[i].layer matches Some(l) ==> layer_exists(d, l));
    }
    assert(spec_sanitize(d).edges =~= d.edges);
    assert(spec_sanitize(d) =~= d);
}

/// Sanitizing twice is the same as sanitizing once: the second pass finds
/// nothing to drop (so it reports no change).
pub proof fn lemma_sanitize_idempotent(d: DocView)
    ensures
        spec_sanitize(spec_sanitize(d)) == spec_sanitize(d),
{
    lemma_sanitize_refs_ok(d);
    lemma_sanitize_keeps_sound(spec_sanitize(d));
}

proof fn lemma_map_push<A, B>(s: Seq<A>, x: A, f: spec_fn(A) -> B)
    ensures
        s.push(x).map_values(f) == s.map_values(f).push(f(x)),
{
    assert(s.push(x).map_values(f) =~= s.map_values(f).push(f(x)));
}

impl Document {
    /// Drop references to things that don't exist (dangling edges, parents,
    /// layers). Returns true if anything changed.
    pub fn sanitize(&mut self) -> (r: bool)
        ensures
            final(self)@ == spec_sanitize(old(self)@),
            r == (final(self)@ != old(self)@),
    {
        let ghost d = self@;
        let ghost nids = node_ids(d.nodes);
        let ghost lids = layer_ids(d.layers);
        let ghost ke = kept_edge(nids);
        let ghost se = sanitized_edge(lids);
        let mut old_edges: Vec<Edge> = Vec::new();
        std::mem::swap(&mut old_edges, &mut self.edges);
        let ghost olde = edges_view(old_edges@);
        assert(olde == d.edges);
        let mut kept: Vec<Edge> = Vec::new();
        let mut edges_changed = false;
        for i in 0..old_edges.len()
            invariant
                node_ids(self@.nodes) == nids,
                layer_ids(self@.layers) == lids,
                self.nodes == old(self).nodes,
                self.layers == old(self).layers,
                self.selected_layer == old(self).selected_layer,
                olde == edges_view(old_edges@),
                olde.len() == old_edges.len(),
                ke == kept_edge(nids),
                se == sanitized_edge(lids),
                kept.len() <= i,
                edges_view(kept@) == olde.take(i as int).filter(ke).map_values(se),
                !edges_changed ==> edges_view(kept@) == olde.take(i as int),
                edges_changed ==> (kept.len() < i || exists|k: int|
                    0 <= k < kept.len() && edges_view(kept@)[k] != olde[k]),
        {
            let e = &old_edges[i];
            proof {
                assert(olde[i as int] == e@);
                assert(olde.take(i + 1) =~= olde.take(i as int).push(olde[i as int]));
                olde.take(i as int).lemma_filter_push(olde[i as int], ke);
            }
            if self.has_node(&e.source) && self.has_node(&e.dest) {
                let mut c = e.clone();
                let mut cleared = false;
                if let Some(l) = &e.layer {
                    if !self.has_layer(l) {
                        c.layer = None;
                        cleared = true;
                    }
                }
                assert(c@ == se(e@));
                let ghost prev = kept@;
                proof {
                    lemma_edges_push(prev, c);
                    lemma_map_push(olde.take(i as int).filter(ke), e@, se);
                }
                kept.push(c);
                if cleared {
                    edges_changed = true;
                    assert(edges_view(kept@)[prev.len() as int] != olde[prev.len() as int] || prev.len() < i);
                }
                proof {
                    if edges_changed && !cleared {
                        if prev.len() < i {
                        } else {
                            let k = choose|k: int| 0 <= k < prev.len() && edges_view(prev)[k] != olde[k];
                            assert(edges_view(kept@)[k] == edges_view(prev)[k]);
                        }
                    }
                }
            } else {
                edges_changed = true;
            }
        }
        assert(olde.take(old_edges.len() as int) =~= olde);
        self.edges = kept;
        proof {
            if !edges_changed {
                assert(edges_view(self.edges@) == d.edges);
            } else {
                assert(edges_view(self.edges@) != d.edges);
            }
        }
        let mut nodes_changed = false;
        let ghost sn = sanitized_node(nids, lids);
        let ghost oldn = d.nodes;
        let n_len = self.nodes.len();
        assert(n_len == oldn.len());
        for i in 0..n_len
            invariant
                n_len == self.nodes.len(),
                node_ids(self@.nodes) == nids,
                layer_ids(self@.layers) == lids,
                self.layers == old(self).layers,
                self.selected_layer == old(self).selected_layer,
                edges_view(self.edges@) == spec_sanitize(d).edges,
                edges_changed == (edges_view(self.edges@) != d.edges),
                sn == sanitized_node(nids, lids),
                oldn == d.nodes,
                self.nodes.len() == oldn.len(),
                forall|k: int| 0 <= k < i ==> self.nodes@[k]@ == sn(oldn[k]),
                forall|k: int| i <= k < oldn.len() ==> self.nodes@[k]@ == oldn[k],
                nodes_changed == exists|k: int| 0 <= k < i && sn(oldn[k]) != oldn[k],
        {
            let n = &self.nodes[i];
            assert(n@ == oldn[i as int]);
            let parents = self.kept_parents(n);
            let layers = self.kept_layers(&n.layers);
            let this_changed = parents.len() != n.parents.len() || layers.len() != n.layers.len();
            let new_node = Node { id: n.id.clone(), text: n.text.clone(), layers, parents };
            proof {
                lemma_filter_full(n@.parents, kept_parent(nids, n@.id));
                lemma_filter_full(n@.layers, kept_layer(lids));
                assert(new_node@ == sn(oldn[i as int]));
                assert(this_changed == (sn(oldn[i as int]) != oldn[i as int]));
            }
            let ghost before = self.nodes@;
            self.nodes.set(i, new_node);
            proof {
                assert forall|k: int| 0 <= k < oldn.len() && k != i implies self.nodes@[k] == before[k] by {}
                assert(node_ids(self@.nodes) =~= nids) by {
                    assert forall|k: int| 0 <= k < oldn.len() implies node_ids(self@.nodes)[k] == nids[k] by {
                        assert(node_ids(self@.nodes)[k] == self.nodes@[k]@.id);
                        assert(nids[k] == oldn[k].id);
                    }
                }
            }
            nodes_changed = nodes_changed || this_changed;
        }
        proof {
            assert(nodes_view(self.nodes@) =~= spec_sanitize(d).nodes);
            if !nodes_changed {
                assert(nodes_view(self.nodes@) =~= d.nodes);
            }
        }
        let mut sel_changed = false;
        let cleared_sel = match &self.selected_layer {
            Some(l) => !self.has_layer(l),
            None => false,
        };
        if cleared_sel {
            self.selected_layer = None;
            sel_changed = true;
        }
        proof {
            assert(self@.layers == d.layers);
            assert(self@.selected_layer == spec_sanitize(d).selected_layer);
            assert(self@ =~= spec_sanitize(d));
            if !edges_changed && !nodes_changed && !sel_changed {
                assert(self@ =~= d);
            }
            if nodes_changed {
                assert(self@.nodes != d.nodes);
            }
        }
        edges_changed || nodes_changed || sel_changed
    }

    pub fn has_node(&self, id: &NodeId) -> (r: bool)
        ensures
            r == node_exists(self@, id@),
    {
        broadcast use lemma_index_of;

        let r = self.node_index(id).is_some();
        proof {
            let ids = node_ids(self@.nodes);
            if ids.contains(id@) {
                let k = choose|k: int| 0 <= k < ids.len() && ids[k] == id@;
                lemma_index_of(ids, id@);
            }
        }
        r
    }

    pub fn has_layer(&self, id: &LayerId) -> (r: bool)
        ensures
            r == layer_exists(self@, id@),
    {
        broadcast use lemma_index_of;

        let r = self.layer_index(id).is_some();
        proof {
            let ids = layer_ids(self@.layers);
            if ids.contains(id@) {
                let k = choose|k: int| 0 <= k < ids.len() && ids[k] == id@;
                lemma_index_of(ids, id@);
            }
        }
        r
    }

    /// The parents of `n` that are existing nodes other than `n` itself.
    fn kept_parents(&self, n: &Node) -> (r: Vec<NodeId>)
        ensures
            node_ids_view(r@) == n@.parents.filter(kept_parent(node_ids(self@.nodes), n@.id)),
    {
        let ghost pred = kept_parent(node_ids(self@.nodes), n@.id);
        let ghost ps = n@.parents;
        let mut r: Vec<NodeId> = Vec::new();
        for i in 0..n.parents.len()
            invariant
                pred == kept_parent(node_ids(self@.nodes), n@.id),
                ps == n@.parents,
                ps.len() == n.parents.len(),
                node_ids_view(r@) == ps.take(i as int).filter(pred),
        {
            let p = &n.parents[i];
            proof {
                assert(ps[i as int] == p@);
                assert(ps.take(i + 1) =~= ps.take(i as int).push(ps[i as int]));
                ps.take(i as int).lemma_filter_push(ps[i as int], pred);
            }
            if *p != n.id && self.has_node(p) {
                let c = p.clone();
                proof {
                    lemma_node_ids_push(r@, c);
                }
                r.push(c);
            }
        }
        assert(ps.take(n.parents.len() as int) =~= ps);
        r
    }

    /// The layer ids that name existing layers.
    fn kept_layers(&self, ls: &Vec<LayerId>) -> (r: Vec<LayerId>)
        ensures
            layer_ids_view(r@) == layer_ids_view(ls@).filter(kept_layer(layer_ids(self@.layers))),
    {
        let ghost pred = kept_layer(layer_ids(self@.layers));
        let ghost s = layer_ids_view(ls@);
        let mut r: Vec<LayerId> = Vec::new();
        for i in 0..ls.len()
            invariant
                pred == kept_layer(layer_ids(self@.layers)),
                s == layer_ids_view(ls@),
                s.len() == ls.len(),
                layer_ids_view(r@) == s.take(i as int).filter(pred),
        {
            let l = &ls[i];
            proof {
                assert(s[i as int] == l@);
                assert(s.take(i + 1) =~= s.take(i as int).push(s[i as int]));
                s.take(i as int).lemma_filter_push(s[i as int], pred);
            }
            if self.has_layer(l) {
                let c = l.clone();
                proof {
                    lemma_layer_ids_push(r@, c);
                }
                r.push(c);
            }
        }
        assert(s.take(ls.len() as int) =~= s);
        r
    }

    /// Position of the first node with the id.
    pub fn node_index(&self, id: &NodeId) -> (r: Option<usize>)
        ensures
            match r {
                Some(i) => i as int == node_pos(self@, id@) && i < self.nodes.len(),
                None => node_pos(self@, id@) == -1,
            },
    {
        broadcast use lemma_index_of;

        let ghost ids = node_ids(self@.nodes);
        for i in 0..self.nodes.len()
            invariant
                ids == node_ids(self@.nodes),
                ids.len() == self.nodes.len(),
                forall|j: int| 0 <= j < i ==> ids[j] != id@,
        {
            if self.nodes[i].id == *id {
                proof {
                    lemma_index_of_unique(ids, id@, i as int);
                }
                return Some(i);
            }
        }
        proof {
            lemma_index_of(ids, id@);
        }
        None
    }

    /// Position of the first edge with the id.
    pub fn edge_index(&self, id: &EdgeId) -> (r: Option<usize>)
        ensures
            match r {
                Some(i) => i as int == edge_pos(self@, id@) && i < self.edges.len(),
                None => edge_pos(self@, id@) == -1,
            },
    {
        broadcast use lemma_index_of;

        let ghost ids = edge_ids(self@.edges);
        for i in 0..self.edges.len()
            invariant
                ids == edge_ids(self@.edges),
                ids.len() == self.edges.len(),
                forall|j: int| 0 <= j < i ==> ids[j] != id@,
        {
            if self.edges[i].id == *id {
                proof {
                    lemma_index_of_unique(ids, id@, i as int);
                }
                return Some(i);
            }
        }
        proof {
            lemma_index_of(ids, id@);
        }
        None
    }

    /// Position of the first layer with the id.
    pub fn layer_index(&self, id: &LayerId) -> (r: Option<usize>)
        ensures
            match r {
                Some(i) => i as int == layer_pos(self@, id@) && i < self.layers.len(),
                None => layer_pos(self@, id@) == -1,
            },
    {
        broadcast use lemma_index_of;

        let ghost ids = layer_ids(self@.layers);
        for i in 0..self.layers.len()
            invariant
                ids == layer_ids(self@.layers),
                ids.len() == self.layers.len(),
                forall|j: int| 0 <= j < i ==> ids[j] != id@,
        {
            if self.layers[i].id == *id {
                proof {
                    lemma_index_of_unique(ids, id@, i as int);
                }
                return Some(i);
            }
        }
        proof {
            lemma_index_of(ids, id@);
        }
        None
    }

    /// The first node with the id.
    pub fn node(&self, id: &NodeId) -> (r: Option<&Node>)
        ensures
            match r {
                Some(n) => node_pos(self@, id@) >= 0 && n@ == self@.nodes[node_pos(self@, id@)],
                None => node_pos(self@, id@) == -1,
            },
    {
        match self.node_index(id) {
            Some(i) => Some(&self.nodes[i]),
            None => None,
        }
    }

    /// The first node with the id, to modify in place.
    pub fn node_mut(&mut self, id: &NodeId) -> (r: Option<&mut Node>)
        ensures
            node_pos(old(self)@, id@) < 0 ==> r is None && final(self)@ == old(self)@,
            node_pos(old(self)@, id@) >= 0 ==> (r matches Some(n) && *n == old(self).nodes@[node_pos(
                old(self)@,
                id@,
            )] && final(self).nodes@ == old(self).nodes@.update(
                node_pos(old(self)@, id@),
                *final(n),
            ) && final(self).layers == old(self).layers && final(self).edges == old(self).edges
                && final(self).selected_layer == old(self).selected_layer),
    {
        match self.node_index(id) {
            Some(i) => Some(&mut self.nodes[i]),
            None => None,
        }
    }

    /// The first edge with the id.
    pub fn edge(&self, id: &EdgeId) -> (r: Option<&Edge>)
        ensures
            match r {
                Some(e) => edge_pos(self@, id@) >= 0 && e@ == self@.edges[edge_pos(self@, id@)],
                None => edge_pos(self@, id@) == -1,
            },
    {
        match self.edge_index(id) {
            Some(i) => Some(&self.edges[i]),
            None => None,
        }
    }

    /// The first edge with the id, to modify in place.
    pub fn edge_mut(&mut self, id: &EdgeId) -> (r: Option<&mut Edge>)
        ensures
            edge_pos(old(self)@, id@) < 0 ==> r is None && final(self)@ == old(self)@,
            edge_pos(old(self)@, id@) >= 0 ==> (r matches Some(e) && *e == old(self).edges@[edge_pos(
                old(self)@,
                id@,
            )] && final(self).edges@ == old(self).edges@.update(
                edge_pos(old(self)@, id@),
                *final(e),
            ) && final(self).layers == old(self).layers && final(self).nodes == old(self).nodes
                && final(self).selected_layer == old(self).selected_layer),
    {
        match self.edge_index(id) {
            Some(i) => Some(&mut self.edges[i]),
            None => None,
        }
    }

    /// The first layer with the id.
    pub fn layer(&self, id: &LayerId) -> (r: Option<&Layer>)
        ensures
            match r {
                Some(l) => layer_pos(self@, id@) >= 0 && l@ == self@.layers[layer_pos(self@, id@)],
                None => layer_pos(self@, id@) == -1,
            },
    {
        match self.layer_index(id) {
            Some(i) => Some(&self.layers[i]),
            None => None,
        }
    }

    /// The first layer with the id, to modify in place.
    pub fn layer_mut(&mut self, id: &LayerId) -> (r: Option<&mut Layer>)
        ensures
            layer_pos(old(self)@, id@) < 0 ==> r is None && final(self)@ == old(self)@,
            layer_pos(old(self)@, id@) >= 0 ==> (r matches Some(l)
                && *l == old(self).layers@[layer_pos(old(self)@, id@)]
                && final(self).layers@ == old(self).layers@.update(
                layer_pos(old(self)@, id@),
                *final(l),
            ) && final(self).nodes == old(self).nodes && final(self).edges == old(self).edges
                && final(self).selected_layer == old(self).selected_layer),
    {
        match self.layer_index(id) {
            Some(i) => Some(&mut self.layers[i]),
            None => None,
        }
    }

    /// Edges between the two nodes, in either direction, in document order.
    pub fn edges_between<'a>(&'a self, a: &NodeId, b: &NodeId) -> (r: Vec<&'a Edge>)
        ensures
            edge_refs_view(r@) == self@.edges.filter(|e: EdgeView| joins(e, a@, b@)),
    {
        let ghost pred = |e: EdgeView| joins(e, a@, b@);
        let mut r: Vec<&'a Edge> = Vec::new();
        for i in 0..self.edges.len()
            invariant
                pred == (|e: EdgeView| joins(e, a@, b@)),
                edge_refs_view(r@) == self@.edges.take(i as int).filter(pred),
        {
            let e = &self.edges[i];
            proof {
                assert(self@.edges.take(i + 1) =~= self@.edges.take(i as int).push(self@.edges[i as int]));
                self@.edges.take(i as int).lemma_filter_push(self@.edges[i as int], pred);
            }
            if (e.source == *a && e.dest == *b) || (e.source == *b && e.dest == *a) {
                r.push(e);
                assert(edge_refs_view(r@) =~= edge_refs_view(r@.drop_last()).push(e@));
            }
        }
        assert(self@.edges.take(self.edges.len() as int) =~= self@.edges);
        r
    }

    /// A fresh node id: `n` followed by the lowest number, from one past the
    /// node count on, that no node uses.
    pub fn new_node_id(&self) -> (r: NodeId)
        ensures
            first_free_numbered(node_ids(self@.nodes), 'n', r@),
    {
        let mut used: Vec<String> = Vec::new();
        for i in 0..self.nodes.len()
            invariant
                used.len() == i,
                forall|k: int| 0 <= k < i ==> used@[k]@ == self.nodes@[k].id@,
        {
            used.push(self.nodes[i].id.0.clone());
        }
        assert(strings_view(used@) =~= node_ids(self@.nodes));
        proof {
            reveal_strlit("n");
        }
        NodeId(first_free_id(&used, "n"))
    }

    /// A fresh edge id: `e` followed by the lowest number, from one past the
    /// edge count on, that no edge uses.
    pub fn new_edge_id(&self) -> (r: EdgeId)
        ensures
            first_free_numbered(edge_ids(self@.edges), 'e', r@),
    {
        let mut used: Vec<String> = Vec::new();
        for i in 0..self.edges.len()
            invariant
                used.len() == i,
                forall|k: int| 0 <= k < i ==> used@[k]@ == self.edges@[k].id@,
        {
            used.push(self.edges[i].id.0.clone());
        }
        assert(strings_view(used@) =~= edge_ids(self@.edges));
        proof {
            reveal_strlit("e");
        }
        EdgeId(first_free_id(&used, "e"))
    }

    /// A fresh layer id: `l` followed by the lowest number, from one past the
    /// layer count on, that no layer uses.
    pub fn new_layer_id(&self) -> (r: LayerId)
        ensures
            first_free_numbered(layer_ids(self@.layers), 'l', r@),
    {
        let mut used: Vec<String> = Vec::new();
        for i in 0..self.layers.len()
            invariant
                used.len() == i,
                forall|k: int| 0 <= k < i ==> used@[k]@ == self.layers@[k].id@,
        {
            used.push(self.layers[i].id.0.clone());
        }
        assert(strings_view(used@) =~= layer_ids(self@.layers));
        proof {
            reveal_strlit("l");
        }
        LayerId(first_free_id(&used, "l"))
    }

    pub fn layer_active(&self, id: &LayerId) -> (r: bool)
        ensures
            r == spec_layer_active(self@, id@),
    {
        match self.layer(id) {
            Some(l) => l.active,
            None => false,
        }
    }

    /// A node is visible if it has no layers or at least one of its layers is
    /// active.
    pub fn node_visible(&self, node: &Node) -> (r: bool)
        ensures
            r == spec_node_visible(self@, node@),
    {
        if node.layers.len() == 0 {
            return true;
        }
        for i in 0..node.layers.len()
            invariant
                forall|j: int| 0 <= j < i ==> !spec_layer_active(self@, node@.layers[j]),
        {
            if self.layer_active(&node.layers[i]) {
                assert(node@.layers[i as int] == node.layers@[i as int]@);
                return true;
            }
        }
        false
    }

    /// An edge is visible if both ends are visible and its layer (if any) is
    /// active.
    pub fn edge_visible(&self, edge: &Edge) -> (r: bool)
        ensures
            r == spec_edge_visible(self@, edge@),
    {
        if let Some(l) = &edge.layer {
            if !self.layer_active(l) {
                return false;
            }
        }
        let s = match self.node(&edge.source) {
            Some(s) => s,
            None => {
                return false;
            },
        };
        let d = match self.node(&edge.dest) {
            Some(d) => d,
            None => {
                return false;
            },
        };
        self.node_visible(s) && self.node_visible(d)
    }
}

} // verus!

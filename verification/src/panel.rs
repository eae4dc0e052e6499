//! The edits of the side panel: switching and selecting layers, adding and
//! deleting them, and changing a node's or a link's text, layers and
//! parents, each committed as one undo level.
use crate::commands::reverse_actions;
use crate::document::{
    clone_layer_ids, clone_node_ids, clone_opt_layer, edge_pos, layer_ids, layer_ids_view, layer_pos, node_ids_view,
    node_pos, DocView, Edge, EdgeId, EdgeView, Layer, LayerId, LayerView, Node, NodeId, NodeView,
};
use crate::editor::{spec_editor_commit, Editor, EditorView};
use crate::ids::first_free_numbered;
use crate::selection::SelectionView;
use crate::undo::{
    actions_view, delete_layer_actions, other_than, spec_delete_layer_actions, without_layer_id, without_node_id,
    Action, ActionView, CoalesceKey,
};
use crate::widget::{Mode, ModeView};
use vstd::prelude::*;

verus! {

/// A character with the Unicode White_Space property: the whitespace that
/// `str::trim` takes away.
pub open spec fn white_space(c: char) -> bool {
    let u = c as int;
    ||| 0x09 <= u <= 0x0d
    ||| u == 0x20
    ||| u == 0x85
    ||| u == 0xa0
    ||| u == 0x1680
    ||| 0x2000 <= u <= 0x200a
    ||| u == 0x2028
    ||| u == 0x2029
    ||| u == 0x202f
    ||| u == 0x205f
    ||| u == 0x3000
}

/// `s` without its leading whitespace.
pub open spec fn trim_start(s: Seq<char>) -> Seq<char>
    decreases s.len(),
{
    if s.len() > 0 && white_space(s[0]) {
        trim_start(s.drop_first())
    } else {
        s
    }
}

/// `s` without its trailing whitespace.
pub open spec fn trim_end(s: Seq<char>) -> Seq<char>
    decreases s.len(),
{
    if s.len() > 0 && white_space(s.last()) {
        trim_end(s.drop_last())
    } else {
        s
    }
}

/// `s` without its leading and trailing whitespace.
pub open spec fn trim(s: Seq<char>) -> Seq<char> {
    trim_end(trim_start(s))
}

/// Whether `c` is whitespace, as `white_space` says.
fn is_white_space(c: char) -> (r: bool)
    ensures
        r == white_space(c),
{
    let u = c as u32;
    (0x09 <= u && u <= 0x0d) || u == 0x20 || u == 0x85 || u == 0xa0 || u == 0x1680 || (0x2000 <= u && u
        <= 0x200a) || u == 0x2028 || u == 0x2029 || u == 0x202f || u == 0x205f || u == 0x3000
}

/// Taking away leading whitespace stops at the first other character.
proof fn lemma_trim_start(s: Seq<char>, i: int)
    requires
        0 <= i <= s.len(),
        forall|k: int| 0 <= k < i ==> white_space(#[trigger] s[k]),
        i == s.len() || !white_space(s[i]),
    ensures
        trim_start(s) == s.skip(i),
    decreases i,
{
    if i == 0 {
        assert(s.skip(0) =~= s);
    } else {
        assert(white_space(s[0]));
        let t = s.drop_first();
        assert forall|k: int| 0 <= k < i - 1 implies white_space(#[trigger] t[k]) by {
            assert(t[k] == s[k + 1]);
        }
        if i < s.len() {
            assert(t[i - 1] == s[i]);
        }
        lemma_trim_start(t, i - 1);
        assert(t.skip(i - 1) =~= s.skip(i));
    }
}

/// Taking away trailing whitespace stops after the last other character.
proof fn lemma_trim_end(t: Seq<char>, j: int)
    requires
        0 <= j <= t.len(),
        forall|k: int| j <= k < t.len() ==> white_space(#[trigger] t[k]),
        j == 0 || !white_space(t[j - 1]),
    ensures
        trim_end(t) == t.take(j),
    decreases t.len() - j,
{
    if j == t.len() {
        assert(t.take(j) =~= t);
    } else {
        assert(white_space(t.last()));
        let u = t.drop_last();
        assert forall|k: int| j <= k < u.len() implies white_space(#[trigger] u[k]) by {
            assert(u[k] == t[k]);
        }
        if j > 0 {
            assert(u[j - 1] == t[j - 1]);
        }
        lemma_trim_end(u, j);
        assert(u.take(j) =~= t.take(j));
    }
}

/// `s` without its leading and trailing whitespace, whitespace being the
/// characters with the Unicode White_Space property, as `str::trim` takes
/// them away.
fn trimmed(s: &str) -> (r: String)
    ensures
        r@ == trim(s@),
{
    let cs = crate::server::chars_of(s);
    let n = cs.len();
    let mut i: usize = 0;
    while i < n && is_white_space(cs[i])
        invariant
            n == cs@.len(),
            i <= n,
            forall|k: int| 0 <= k < i ==> white_space(#[trigger] cs@[k]),
        decreases n - i,
    {
        i = i + 1;
    }
    proof {
        lemma_trim_start(cs@, i as int);
    }
    let mut j: usize = n;
    while j > i && is_white_space(cs[j - 1])
        invariant
            n == cs@.len(),
            i <= j <= n,
            forall|k: int| j <= k < n ==> white_space(#[trigger] cs@[k]),
        decreases j - i,
    {
        j = j - 1;
    }
    let ghost rest = cs@.skip(i as int);
    proof {
        assert forall|k: int| j - i <= k < rest.len() implies white_space(#[trigger] rest[k]) by {
            assert(rest[k] == cs@[k + i]);
        }
        if j > i {
            assert(rest[j - i - 1] == cs@[j - 1]);
        }
        lemma_trim_end(rest, j - i);
    }
    let mut out: Vec<char> = Vec::new();
    for k in i..j
        invariant
            i <= j <= n,
            n == cs@.len(),
            out@ == cs@.subrange(i as int, k as int),
    {
        out.push(cs[k]);
        assert(cs@.subrange(i as int, k + 1) =~= cs@.subrange(i as int, k as int).push(cs@[k as int]));
    }
    assert(out@ =~= rest.take(j - i));
    crate::server::string_of(&out)
}

/// Whether `s` has no characters.
fn blank(s: &String) -> (r: bool)
    ensures
        r == (s@.len() == 0),
{
    crate::server::chars_of(s.as_str()).len() == 0
}

fn copy_node(n: &Node) -> (r: Node)
    ensures
        r@ == n@,
{
    Node { id: n.id.clone(), text: n.text.clone(), layers: clone_layer_ids(&n.layers), parents: clone_node_ids(&n.parents) }
}

fn copy_edge(e: &Edge) -> (r: Edge)
    ensures
        r@ == e@,
{
    Edge {
        id: e.id.clone(),
        text: e.text.clone(),
        source: e.source.clone(),
        dest: e.dest.clone(),
        layer: clone_opt_layer(&e.layer),
    }
}

/// The editor after committing the single action `a`.
pub open spec fn commit_one(v: EditorView, a: ActionView, now_ms: u64, key: Option<(Seq<char>, Seq<char>)>) -> EditorView {
    spec_editor_commit(v, seq![a], now_ms, key)
}

/// The node with id `id`, when there is one.
pub open spec fn node_of(d: DocView, id: Seq<char>) -> NodeView {
    d.nodes[node_pos(d, id)]
}

/// The link with id `id`, when there is one.
pub open spec fn edge_of(d: DocView, id: Seq<char>) -> EdgeView {
    d.edges[edge_pos(d, id)]
}

/// The coalescing key of text typed into item `id`.
pub open spec fn text_key(id: Seq<char>) -> Option<(Seq<char>, Seq<char>)> {
    Some((id, "text"@))
}

impl Editor {
    fn commit_action(&mut self, a: Action, now_ms: u64, key: Option<CoalesceKey>)
        ensures
            final(self)@ == commit_one(old(self)@, a@, now_ms, crate::undo::key_view(key)),
    {
        let mut actions: Vec<Action> = Vec::new();
        actions.push(a);
        assert(actions_view(actions@) =~= seq![actions@[0]@]);
        self.commit(actions, now_ms, key);
    }

    /// Switches layer `id` on or off; nothing for a missing layer.
    pub fn set_layer_active(&mut self, id: &LayerId, active: bool, now_ms: u64)
        ensures
            final(self)@ == if layer_pos(old(self)@.doc, id@) < 0 {
                old(self)@
            } else {
                let l = old(self)@.doc.layers[layer_pos(old(self)@.doc, id@)];
                commit_one(old(self)@, ActionView::LayerModify(LayerView { active, ..l }), now_ms, None)
            },
    {
        let layer = match self.doc.layer(id) {
            Some(l) => Layer { id: l.id.clone(), name: l.name.clone(), active },
            None => {
                return;
            },
        };
        self.commit_action(Action::LayerModify(layer), now_ms, None);
    }

    /// Makes layer `id` the selected one, or selects none when it already
    /// is.
    pub fn toggle_selected_layer(&mut self, id: &LayerId, now_ms: u64)
        ensures
            final(self)@ == commit_one(
                old(self)@,
                ActionView::SelectLayer(
                    if old(self)@.doc.selected_layer == Some(id@) {
                        None
                    } else {
                        Some(id@)
                    },
                ),
                now_ms,
                None,
            ),
    {
        let current = match &self.doc.selected_layer {
            Some(l) => *l == *id,
            None => false,
        };
        let new = if current {
            None
        } else {
            Some(id.clone())
        };
        self.commit_action(Action::SelectLayer(new), now_ms, None);
    }

    /// Deletes layer `id` and every reference to it.
    pub fn delete_layer(&mut self, id: &LayerId, now_ms: u64)
        ensures
            final(self)@ == spec_editor_commit(old(self)@, spec_delete_layer_actions(old(self)@.doc, id@), now_ms, None),
    {
        let actions = delete_layer_actions(&self.doc, id);
        self.commit(actions, now_ms, None);
    }

    /// Adds a switched-on layer named `name` with surrounding whitespace
    /// removed, under a fresh id; nothing for a blank name.
    pub fn add_layer(&mut self, name: &str, now_ms: u64)
        ensures
            trim(name@).len() == 0 ==> final(self)@ == old(self)@,
            trim(name@).len() > 0 ==> exists|lid: Seq<char>|
                {
                    &&& first_free_numbered(layer_ids(old(self)@.doc.layers), 'l', lid)
                    &&& final(self)@ == commit_one(
                        old(self)@,
                        ActionView::LayerCreate {
                            layer: LayerView { id: lid, name: trim(name@), active: true },
                            index: None,
                        },
                        now_ms,
                        None,
                    )
                },
    {
        let t = trimmed(name);
        if blank(&t) {
            return;
        }
        let id = self.doc.new_layer_id();
        let ghost lid = id@;
        self.commit_action(Action::LayerCreate { layer: Layer { id, name: t, active: true }, index: None }, now_ms, None);
        assert(first_free_numbered(layer_ids(old(self)@.doc.layers), 'l', lid));
    }

    /// Sets the text of node `id`, folding quick successive changes into
    /// one undo level; nothing for a missing node or unchanged text.
    pub fn set_node_text(&mut self, id: &NodeId, text: String, now_ms: u64)
        ensures
            final(self)@ == if node_pos(old(self)@.doc, id@) < 0 || node_of(old(self)@.doc, id@).text == text@ {
                old(self)@
            } else {
                commit_one(
                    old(self)@,
                    ActionView::NodeModify(NodeView { text: text@, ..node_of(old(self)@.doc, id@) }),
                    now_ms,
                    text_key(id@),
                )
            },
    {
        let mut node = match self.doc.node(id) {
            Some(n) => copy_node(n),
            None => {
                return;
            },
        };
        if node.text == text {
            return;
        }
        node.text = text;
        let key = CoalesceKey { target: id.0.clone(), field: "text".to_owned() };
        self.commit_action(Action::NodeModify(node), now_ms, Some(key));
    }

    /// Puts node `id` in layer `layer` (at the end of its layers), or takes
    /// it out; nothing for a missing node.
    pub fn set_node_layer(&mut self, id: &NodeId, layer: &LayerId, member: bool, now_ms: u64)
        ensures
            final(self)@ == if node_pos(old(self)@.doc, id@) < 0 {
                old(self)@
            } else {
                let n = node_of(old(self)@.doc, id@);
                let kept = n.layers.filter(other_than(layer@));
                commit_one(
                    old(self)@,
                    ActionView::NodeModify(
                        NodeView {
                            layers: if member {
                                kept.push(layer@)
                            } else {
                                kept
                            },
                            ..n
                        },
                    ),
                    now_ms,
                    None,
                )
            },
    {
        let mut node = match self.doc.node(id) {
            Some(n) => copy_node(n),
            None => {
                return;
            },
        };
        let mut layers = without_layer_id(&node.layers, layer);
        if member {
            let ghost before = layer_ids_view(layers@);
            layers.push(layer.clone());
            assert(layer_ids_view(layers@) =~= before.push(layer@));
        }
        node.layers = layers;
        self.commit_action(Action::NodeModify(node), now_ms, None);
    }

    /// Stops drawing node `id` inside `parent`; nothing for a missing node.
    pub fn remove_parent(&mut self, id: &NodeId, parent: &NodeId, now_ms: u64)
        ensures
            final(self)@ == if node_pos(old(self)@.doc, id@) < 0 {
                old(self)@
            } else {
                let n = node_of(old(self)@.doc, id@);
                commit_one(
                    old(self)@,
                    ActionView::NodeModify(NodeView { parents: n.parents.filter(other_than(parent@)), ..n }),
                    now_ms,
                    None,
                )
            },
    {
        let mut node = match self.doc.node(id) {
            Some(n) => copy_node(n),
            None => {
                return;
            },
        };
        node.parents = without_node_id(&node.parents, parent);
        self.commit_action(Action::NodeModify(node), now_ms, None);
    }

    /// Draws node `id` inside the node named `parent` too (at the end of its
    /// parents); nothing for a blank name or a missing node.
    pub fn add_parent(&mut self, id: &NodeId, parent: String, now_ms: u64)
        ensures
            final(self)@ == if parent@.len() == 0 || node_pos(old(self)@.doc, id@) < 0 {
                old(self)@
            } else {
                let n = node_of(old(self)@.doc, id@);
                commit_one(
                    old(self)@,
                    ActionView::NodeModify(NodeView { parents: n.parents.push(parent@), ..n }),
                    now_ms,
                    None,
                )
            },
    {
        if blank(&parent) {
            return;
        }
        let mut node = match self.doc.node(id) {
            Some(n) => copy_node(n),
            None => {
                return;
            },
        };
        let ghost before = node_ids_view(node.parents@);
        node.parents.push(NodeId(parent));
        assert(node_ids_view(node.parents@) =~= before.push(node.parents@.last()@));
        self.commit_action(Action::NodeModify(node), now_ms, None);
    }

    /// The nodes that node `id` could be drawn inside next: every other node
    /// not yet among its parents, in document order; none for a missing
    /// node.
    pub fn parent_candidates(&self, id: &NodeId) -> (r: Vec<NodeId>)
        ensures
            node_ids_view(r@) == if node_pos(self@.doc, id@) < 0 {
                Seq::<Seq<char>>::empty()
            } else {
                crate::document::node_ids(
                    self@.doc.nodes.filter(not_parent_of(id@, node_of(self@.doc, id@).parents)),
                )
            },
    {
        let node = match self.doc.node(id) {
            Some(n) => n,
            None => {
                let r: Vec<NodeId> = Vec::new();
                assert(node_ids_view(r@) =~= Seq::<Seq<char>>::empty());
                return r;
            },
        };
        let ghost d = self@.doc;
        let ghost f = not_parent_of(id@, node@.parents);
        let mut out: Vec<NodeId> = Vec::new();
        for i in 0..self.doc.nodes.len()
            invariant
                d == self@.doc,
                f == not_parent_of(id@, node@.parents),
                node_ids_view(out@) == crate::document::node_ids(d.nodes.take(i as int).filter(f)),
        {
            let other = &self.doc.nodes[i];
            proof {
                assert(d.nodes[i as int] == other@);
                assert(d.nodes.take(i + 1) =~= d.nodes.take(i as int).push(other@));
                d.nodes.take(i as int).lemma_filter_push(other@, f);
            }
            if other.id != *id && !crate::undo::contains_node_id(&node.parents, &other.id) {
                let ghost before = node_ids_view(out@);
                out.push(other.id.clone());
                assert(node_ids_view(out@) =~= before.push(other@.id));
                assert(crate::document::node_ids(d.nodes.take(i as int).filter(f).push(other@)) =~= crate::document::node_ids(
                    d.nodes.take(i as int).filter(f),
                ).push(other@.id));
            }
        }
        assert(d.nodes.take(self.doc.nodes.len() as int) =~= d.nodes);
        out
    }

    /// Sets the text of link `id`, folding quick successive changes into
    /// one undo level; nothing for a missing link or unchanged text.
    pub fn set_edge_text(&mut self, id: &EdgeId, text: String, now_ms: u64)
        ensures
            final(self)@ == if edge_pos(old(self)@.doc, id@) < 0 || edge_of(old(self)@.doc, id@).text == text@ {
                old(self)@
            } else {
                commit_one(
                    old(self)@,
                    ActionView::EdgeModify(EdgeView { text: text@, ..edge_of(old(self)@.doc, id@) }),
                    now_ms,
                    text_key(id@),
                )
            },
    {
        let mut edge = match self.doc.edge(id) {
            Some(e) => copy_edge(e),
            None => {
                return;
            },
        };
        if edge.text == text {
            return;
        }
        edge.text = text;
        let key = CoalesceKey { target: id.0.clone(), field: "text".to_owned() };
        self.commit_action(Action::EdgeModify(edge), now_ms, Some(key));
    }

    /// Puts link `id` in the layer named `layer`, or in none for a blank
    /// name; nothing for a missing link.
    pub fn set_edge_layer(&mut self, id: &EdgeId, layer: String, now_ms: u64)
        ensures
            final(self)@ == if edge_pos(old(self)@.doc, id@) < 0 {
                old(self)@
            } else {
                commit_one(
                    old(self)@,
                    ActionView::EdgeModify(
                        EdgeView {
                            layer: if layer@.len() == 0 {
                                None
                            } else {
                                Some(layer@)
                            },
                            ..edge_of(old(self)@.doc, id@)
                        },
                    ),
                    now_ms,
                    None,
                )
            },
    {
        let mut edge = match self.doc.edge(id) {
            Some(e) => copy_edge(e),
            None => {
                return;
            },
        };
        edge.layer = if blank(&layer) {
            None
        } else {
            Some(LayerId(layer))
        };
        self.commit_action(Action::EdgeModify(edge), now_ms, None);
    }

    /// Turns link `id` around.
    pub fn reverse_edge(&mut self, id: &EdgeId, now_ms: u64)
        ensures
            final(self)@ == if edge_pos(old(self)@.doc, id@) >= 0 {
                let e = edge_of(old(self)@.doc, id@);
                commit_one(old(self)@, ActionView::EdgeModify(EdgeView { source: e.dest, dest: e.source, ..e }), now_ms, None)
            } else {
                old(self)@
            },
    {
        let actions = reverse_actions(&self.doc, id);
        self.commit(actions, now_ms, None);
    }

    /// Deletes link `id` and closes its editor.
    pub fn delete_edge(&mut self, id: &EdgeId, now_ms: u64)
        ensures
            ({
                let c = commit_one(old(self)@, ActionView::EdgeDelete(id@), now_ms, None);
                final(self)@ == (EditorView { selection: SelectionView { mode: ModeView::Layers, ..c.selection }, ..c })
            }),
    {
        self.commit_action(Action::EdgeDelete(id.clone()), now_ms, None);
        self.selection.mode = Mode::Layers;
    }

    /// Deletes node `id` with everything that refers to it and closes its
    /// editor.
    pub fn delete_node(&mut self, id: &NodeId, now_ms: u64)
        ensures
            ({
                let c = spec_editor_commit(
                    old(self)@,
                    crate::undo::spec_delete_node_actions(old(self)@.doc, id@),
                    now_ms,
                    None,
                );
                final(self)@ == (EditorView { selection: SelectionView { mode: ModeView::Layers, ..c.selection }, ..c })
            }),
    {
        self.cmd_delete_node(id, now_ms);
        self.selection.mode = Mode::Layers;
    }
}

/// Another node than `id`, not among `parents`.
pub open spec fn not_parent_of(id: Seq<char>, parents: Seq<Seq<char>>) -> spec_fn(NodeView) -> bool {
    |n: NodeView| n.id != id && !parents.contains(n.id)
}

} // verus!

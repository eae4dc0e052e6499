//! The editor: a document, its undo history and the selection, and the
//! commands that edit the document through the history.
use crate::commands::{
    create_actions, creates, cycle_next, cyclic_step, island_target, link_actions, new_link, reverse_actions,
    spec_cycle_next, spec_cyclic_step,
};
use crate::document::{edge_pos, node_ids_view, node_pos, spec_sanitize, DocView, Document, EdgeId, EdgeView, NodeId};
use crate::selection::{
    inward_direction, lemma_after_change_exists, lemma_set_selection_valid, opt_id, selection_ok, spec_after_change,
    spec_other_end, spec_set_selection, Selection, SelectionView,
};
use crate::undo::{
    actions_view, contains_node_id, delete_node_actions, key_view, spec_commit, spec_delete_node_actions, spec_redo, spec_undo,
    Action, ActionView, CoalesceKey, History, HistoryView,
};
use crate::nesting::{candidate_parents, visible_ids, visible_parents};
use crate::search::{ids_view, lowercase_of, search_results, spec_search};
use crate::widget::{Dir, Mode, ModeView, SearchTarget};
use vstd::prelude::*;

verus! {

/// A document being edited, with its undo history and selection.
pub struct Editor {
    pub doc: Document,
    pub history: History,
    pub selection: Selection,
    /// What the search looks for.
    pub search_query: String,
    /// Which of the search's results is current.
    pub search_index: usize,
    /// The search result being previewed.
    pub peek: Option<NodeId>,
}

pub struct EditorView {
    pub doc: DocView,
    pub history: HistoryView,
    pub selection: SelectionView,
    pub search_query: Seq<char>,
    pub search_index: usize,
    pub peek: Option<Seq<char>>,
}

impl View for Editor {
    type V = EditorView;

    open spec fn view(&self) -> EditorView {
        EditorView {
            doc: self.doc@,
            history: self.history@,
            selection: self.selection@,
            search_query: self.search_query@,
            search_index: self.search_index,
            peek: opt_id(self.peek),
        }
    }
}

/// The editor after committing the actions as one undo level: nothing
/// happens for no actions; otherwise the selection catches up with the
/// changed document.
pub open spec fn spec_editor_commit(
    v: EditorView,
    acts: Seq<ActionView>,
    now_ms: u64,
    key: Option<(Seq<char>, Seq<char>)>,
) -> EditorView {
    if acts.len() == 0 {
        v
    } else {
        let (h, d) = spec_commit(v.history, v.doc, acts, now_ms, key);
        EditorView { doc: d, history: h, selection: spec_after_change(d, v.selection), ..v }
    }
}

/// The editor after an undo, and whether there was anything to undo.
pub open spec fn spec_editor_undo(v: EditorView, now_ms: u64) -> (EditorView, bool) {
    let (h, d, done) = spec_undo(v.history, v.doc, now_ms);
    if done {
        (EditorView { doc: d, history: h, selection: spec_after_change(d, v.selection), ..v }, true)
    } else {
        (v, false)
    }
}

/// The editor after a redo, and whether there was anything to redo.
pub open spec fn spec_editor_redo(v: EditorView, now_ms: u64) -> (EditorView, bool) {
    let (h, d, done) = spec_redo(v.history, v.doc, now_ms);
    if done {
        (EditorView { doc: d, history: h, selection: spec_after_change(d, v.selection), ..v }, true)
    } else {
        (v, false)
    }
}

/// The selection is valid and everything it names exists in the document.
pub open spec fn selection_sound(d: DocView, s: SelectionView) -> bool {
    &&& selection_ok(s.start, s.end)
    &&& s.start matches Some(n) ==> node_pos(d, n) >= 0
    &&& s.end matches Some(n) ==> node_pos(d, n) >= 0
    &&& s.edge matches Some(x) ==> edge_pos(d, x) >= 0
}

proof fn lemma_after_change_sound(d: DocView, s: SelectionView)
    ensures
        selection_sound(d, spec_after_change(d, s)),
{
    lemma_after_change_exists(d, s);
    lemma_set_selection_valid(
        d,
        SelectionView { mode: match s.mode {
            ModeView::EditNode(n) => if node_pos(d, n) < 0 {
                ModeView::Layers
            } else {
                s.mode
            },
            ModeView::EditEdge(x) => if edge_pos(d, x) < 0 {
                ModeView::Layers
            } else {
                s.mode
            },
            _ => s.mode,
        }, ..s },
        crate::selection::still_there(d, s.start),
        crate::selection::still_there(d, s.end),
    );
}

/// Editing keeps the selection sound: after any commit, undo or redo, the
/// selection is valid and names only nodes and a link that exist.
pub proof fn lemma_edits_keep_selection_sound(v: EditorView, acts: Seq<ActionView>, now_ms: u64, key: Option<
    (Seq<char>, Seq<char>),
>)
    requires
        selection_sound(v.doc, v.selection),
    ensures
        selection_sound(spec_editor_commit(v, acts, now_ms, key).doc, spec_editor_commit(v, acts, now_ms, key).selection),
        selection_sound(spec_editor_undo(v, now_ms).0.doc, spec_editor_undo(v, now_ms).0.selection),
        selection_sound(spec_editor_redo(v, now_ms).0.doc, spec_editor_redo(v, now_ms).0.selection),
{
    if acts.len() > 0 {
        let (h, d) = spec_commit(v.history, v.doc, acts, now_ms, key);
        lemma_after_change_sound(d, v.selection);
    }
    let (h1, d1, done1) = spec_undo(v.history, v.doc, now_ms);
    if done1 {
        lemma_after_change_sound(d1, v.selection);
    }
    let (h2, d2, done2) = spec_redo(v.history, v.doc, now_ms);
    if done2 {
        lemma_after_change_sound(d2, v.selection);
    }
}

/// The selection after a flip: where the selected link leads from the
/// anchor to a node other than the primary, that node is selected as the
/// primary after the anchor and the link stays selected; then anchor and
/// primary trade places.
pub open spec fn spec_flip_state(d: DocView, v: SelectionView) -> SelectionView {
    let v1 = match (v.start, v.edge) {
        (Some(s), Some(x)) => match spec_other_end(d, x, s) {
            Some(o) => if v.end == Some(o) {
                v
            } else {
                SelectionView { edge: Some(x), ..spec_set_selection(d, v, Some(s), Some(o)) }
            },
            None => v,
        },
        _ => v,
    };
    match (v1.start, v1.end) {
        (Some(a), Some(b)) => spec_set_selection(d, v1, Some(b), Some(a)),
        _ => v1,
    }
}

/// The editor once the actions `acts` creating node `id` are committed,
/// the node is selected after `from`, and the editor is open on it.
pub open spec fn created_state(
    v: EditorView,
    from: Option<Seq<char>>,
    id: Seq<char>,
    acts: Seq<ActionView>,
    now_ms: u64,
) -> EditorView {
    let c = spec_editor_commit(v, acts, now_ms, None);
    EditorView {
        selection: SelectionView {
            mode: ModeView::EditNode(id),
            ..spec_set_selection(c.doc, c.selection, from, Some(id))
        },
        ..c
    }
}

/// `pick` is, of the nodes `cands`, the one selected most recently
/// according to `recent` (the earliest of them on a tie), or none when
/// there are no candidates.
pub open spec fn recent_pick(recent: Seq<Seq<char>>, cands: Seq<Seq<char>>, pick: Option<Seq<char>>) -> bool {
    match pick {
        None => cands.len() == 0,
        Some(c) => exists|k: int|
            0 <= k < cands.len() && c == cands[k] && (forall|j: int|
                0 <= j < k ==> crate::selection::spec_recency(recent, #[trigger] cands[j])
                    < crate::selection::spec_recency(recent, cands[k])) && (forall|j: int|
                0 <= j < cands.len() ==> crate::selection::spec_recency(recent, #[trigger] cands[j])
                    <= crate::selection::spec_recency(recent, cands[k])),
    }
}

/// Node `c` is drawn inside node `id`: `id` is among its visible parents.
pub open spec fn contained_in(d: DocView, id: Seq<char>) -> spec_fn(Seq<char>) -> bool {
    |c: Seq<char>| candidate_parents(d, visible_ids(d), c).contains(id)
}

/// The containers that leaving the primary node can go to: its visible
/// parents, none when nothing is selected.
pub open spec fn exit_candidates(v: EditorView) -> Seq<Seq<char>> {
    match v.selection.end {
        Some(f) => candidate_parents(v.doc, visible_ids(v.doc), f),
        None => Seq::<Seq<char>>::empty(),
    }
}

/// The editor after leaving the primary node for container `pick`: the
/// container becomes the primary; without one the anchor is dropped, and
/// without an anchor the selection is cleared.
pub open spec fn exit_result(v: EditorView, pick: Option<Seq<char>>) -> EditorView {
    EditorView {
        selection: match pick {
            Some(p) => spec_set_selection(v.doc, v.selection, v.selection.start, Some(p)),
            None => if v.selection.start is Some {
                spec_set_selection(v.doc, v.selection, None, v.selection.end)
            } else {
                spec_set_selection(v.doc, v.selection, None, None)
            },
        },
        ..v
    }
}

/// Of `cands`, the most recently selected, as `recent_pick` describes it.
fn recent_choice(recent: &Vec<NodeId>, cands: &Vec<NodeId>) -> (r: Option<NodeId>)
    ensures
        recent_pick(node_ids_view(recent@), node_ids_view(cands@), opt_id(r)),
{
    let pick = crate::selection::pick_recent(recent, cands.as_slice());
    proof {
        let rv = node_ids_view(recent@);
        let ov = node_ids_view(cands@);
        match opt_id(pick) {
            Some(c) => {
                let k = choose|k: int|
                    0 <= k < cands@.len() && c == cands@[k]@ && (forall|j: int|
                        0 <= j < k ==> crate::selection::spec_recency(rv, #[trigger] cands@[j]@)
                            < crate::selection::spec_recency(rv, cands@[k]@)) && (forall|j: int|
                        0 <= j < cands@.len() ==> crate::selection::spec_recency(rv, #[trigger] cands@[j]@)
                            <= crate::selection::spec_recency(rv, cands@[k]@));
                assert(ov[k] == cands@[k]@);
                assert forall|j: int| 0 <= j < k implies crate::selection::spec_recency(rv, #[trigger] ov[j])
                    < crate::selection::spec_recency(rv, ov[k]) by {
                    assert(ov[j] == cands@[j]@);
                }
                assert forall|j: int| 0 <= j < ov.len() implies crate::selection::spec_recency(rv, #[trigger] ov[j])
                    <= crate::selection::spec_recency(rv, ov[k]) by {
                    assert(ov[j] == cands@[j]@);
                }
            },
            None => {},
        }
    }
    pick
}

impl Editor {
    /// Starts editing a document: references to things that don't exist are
    /// dropped first; nothing is selected and nothing can be undone.
    pub fn new(doc: Document) -> (r: Editor)
        ensures
            r@.doc == spec_sanitize(doc@),
            r@.history.undo.len() == 0,
            r@.history.redo.len() == 0,
            r@.selection == (SelectionView {
                start: None,
                end: None,
                edge: None,
                mode: ModeView::Layers,
                recent: Seq::<Seq<char>>::empty(),
            }),
            selection_sound(r@.doc, r@.selection),
            r@.search_query.len() == 0,
            r@.search_index == 0,
            r@.peek is None,
    {
        let mut doc = doc;
        doc.sanitize();
        let r = Editor {
            doc,
            history: History::default(),
            selection: Selection::new(),
            search_query: String::new(),
            search_index: 0,
            peek: None,
        };
        r
    }

    /// Applies the actions atomically as one undo level, at time `now_ms`.
    pub fn commit(&mut self, actions: Vec<Action>, now_ms: u64, key: Option<CoalesceKey>)
        ensures
            final(self)@ == spec_editor_commit(old(self)@, actions_view(actions@), now_ms, key_view(key)),
    {
        if actions.len() == 0 {
            return;
        }
        self.history.commit(&mut self.doc, actions, now_ms, key);
        self.selection.after_change(&self.doc);
    }

    /// Reverts the most recent undo level; false when there is none.
    pub fn undo(&mut self, now_ms: u64) -> (r: bool)
        ensures
            (final(self)@, r) == spec_editor_undo(old(self)@, now_ms),
    {
        let done = self.history.undo(&mut self.doc, now_ms);
        if done {
            self.selection.after_change(&self.doc);
        }
        done
    }

    /// Re-applies the most recently undone level; false when there is none.
    pub fn redo(&mut self, now_ms: u64) -> (r: bool)
        ensures
            (final(self)@, r) == spec_editor_redo(old(self)@, now_ms),
    {
        let done = self.history.redo(&mut self.doc, now_ms);
        if done {
            self.selection.after_change(&self.doc);
        }
        done
    }

    /// Links the anchor to the primary: nothing when fewer than two nodes
    /// are selected, or they are already linked that way.
    pub fn cmd_link(&mut self, now_ms: u64)
        ensures
            old(self)@.selection.start is None ==> final(self)@ == old(self)@,
            old(self)@.selection.start matches Some(s) ==> old(self)@.selection.end matches Some(e) ==> exists|
                acts: Seq<ActionView>,
            |
                {
                    &&& (if s == e || crate::commands::linked(old(self)@.doc, s, e) {
                        acts.len() == 0
                    } else {
                        &&& acts.len() == 1
                        &&& acts[0] matches ActionView::EdgeCreate { edge, index } && index is None && new_link(
                            old(self)@.doc,
                            s,
                            e,
                            edge,
                        )
                    })
                    &&& final(self)@ == spec_editor_commit(old(self)@, acts, now_ms, None)
                },
            old(self)@.selection.start is Some && old(self)@.selection.end is None ==> final(self)@ == old(self)@,
    {
        let (s, e) = match (&self.selection.start, &self.selection.end) {
            (Some(s), Some(e)) => (s.clone(), e.clone()),
            _ => {
                return;
            },
        };
        let actions = link_actions(&self.doc, &s, &e);
        let ghost acts = actions_view(actions@);
        proof {
            if actions@.len() == 1 {
                assert(acts[0] == actions@[0]@);
            }
        }
        self.commit(actions, now_ms, None);
    }

    /// Deletes the selected link.
    pub fn cmd_unlink(&mut self, now_ms: u64)
        ensures
            final(self)@ == match old(self)@.selection.edge {
                Some(x) => spec_editor_commit(old(self)@, seq![ActionView::EdgeDelete(x)], now_ms, None),
                None => old(self)@,
            },
    {
        let edge = match &self.selection.edge {
            Some(x) => x.clone(),
            None => {
                return;
            },
        };
        let mut actions: Vec<Action> = Vec::new();
        actions.push(Action::EdgeDelete(edge));
        assert(actions_view(actions@) =~= seq![actions@[0]@]);
        self.commit(actions, now_ms, None);
    }

    /// Turns the selected link around.
    pub fn cmd_reverse(&mut self, now_ms: u64)
        ensures
            final(self)@ == match old(self)@.selection.edge {
                Some(x) => if edge_pos(old(self)@.doc, x) >= 0 {
                    let e = old(self)@.doc.edges[edge_pos(old(self)@.doc, x)];
                    spec_editor_commit(
                        old(self)@,
                        seq![ActionView::EdgeModify(EdgeView { source: e.dest, dest: e.source, ..e })],
                        now_ms,
                        None,
                    )
                } else {
                    old(self)@
                },
                None => old(self)@,
            },
    {
        let edge = match &self.selection.edge {
            Some(x) => x.clone(),
            None => {
                return;
            },
        };
        let actions = reverse_actions(&self.doc, &edge);
        self.commit(actions, now_ms, None);
    }

    /// Deletes node `id` with the links to and from it and the references to
    /// it as a parent.
    pub fn cmd_delete_node(&mut self, id: &NodeId, now_ms: u64)
        ensures
            final(self)@ == spec_editor_commit(
                old(self)@,
                spec_delete_node_actions(old(self)@.doc, id@),
                now_ms,
                None,
            ),
    {
        let actions = delete_node_actions(&self.doc, id);
        self.commit(actions, now_ms, None);
    }

    /// Deletes the primary selected node.
    pub fn cmd_delete(&mut self, now_ms: u64)
        ensures
            final(self)@ == match old(self)@.selection.end {
                Some(n) => spec_editor_commit(
                    old(self)@,
                    spec_delete_node_actions(old(self)@.doc, n),
                    now_ms,
                    None,
                ),
                None => old(self)@,
            },
    {
        match self.selection.focus_node() {
            Some(target) => self.cmd_delete_node(&target, now_ms),
            None => {},
        }
    }

    /// Opens the editor on the primary selected node.
    pub fn cmd_edit(&mut self)
        ensures
            final(self)@ == match old(self)@.selection.end {
                Some(n) => EditorView {
                    selection: SelectionView { mode: ModeView::EditNode(n), ..old(self)@.selection },
                    ..old(self)@
                },
                None => old(self)@,
            },
    {
        if let Some(target) = self.selection.focus_node() {
            self.selection.mode = Mode::EditNode(target);
        }
    }

    /// Opens the editor on the selected link.
    pub fn cmd_edit_link(&mut self)
        ensures
            final(self)@ == match old(self)@.selection.edge {
                Some(x) => EditorView {
                    selection: SelectionView { mode: ModeView::EditEdge(x), ..old(self)@.selection },
                    ..old(self)@
                },
                None => old(self)@,
            },
    {
        if let Some(edge) = &self.selection.edge {
            self.selection.mode = Mode::EditEdge(edge.clone());
        }
    }

    /// Opens the editor on the anchor node.
    pub fn cmd_edit_start(&mut self)
        ensures
            final(self)@ == match old(self)@.selection.start {
                Some(n) => EditorView {
                    selection: SelectionView { mode: ModeView::EditNode(n), ..old(self)@.selection },
                    ..old(self)@
                },
                None => old(self)@,
            },
    {
        if let Some(target) = &self.selection.start {
            self.selection.mode = Mode::EditNode(target.clone());
        }
    }

    /// Flips the selection around: where the selected link leads from the
    /// anchor to a node other than the primary, that node becomes the
    /// primary first (keeping the link selected); then anchor and primary
    /// trade places.
    pub fn cmd_flip(&mut self)
        ensures
            final(self)@ == (EditorView { selection: spec_flip_state(old(self)@.doc, old(self)@.selection), ..old(self)@ }),
    {
        let start = self.selection.start.clone();
        let edge = self.selection.edge.clone();
        if let (Some(s), Some(x)) = (start, edge) {
            let other = match self.doc.edge(&x) {
                Some(e) => if e.source == s {
                    Some(e.dest.clone())
                } else if e.dest == s {
                    Some(e.source.clone())
                } else {
                    None
                },
                None => None,
            };
            if let Some(o) = other {
                let same = match &self.selection.end {
                    Some(y) => *y == o,
                    None => false,
                };
                if !same {
                    self.selection.set_selection(&self.doc, Some(s), Some(o));
                    self.selection.edge = Some(x);
                }
            }
        }
        let pair = match (&self.selection.start, &self.selection.end) {
            (Some(a), Some(b)) => Some((a.clone(), b.clone())),
            _ => None,
        };
        if let Some((a, b)) = pair {
            self.selection.set_selection(&self.doc, Some(b), Some(a));
        }
    }

    /// Creates a node next to `reference`, linked to `from` when there is
    /// one (towards it when `inward`), selects it after `from` and opens
    /// the editor on it.
    pub fn create_selected(&mut self, from: Option<NodeId>, reference: &NodeId, inward: bool, now_ms: u64)
        ensures
            exists|id: Seq<char>, acts: Seq<ActionView>|
                {
                    &&& creates(old(self)@.doc, opt_id(from), reference@, inward, id, acts)
                    &&& final(self)@ == created_state(old(self)@, opt_id(from), id, acts, now_ms)
                },
    {
        let (id, actions) = create_actions(&self.doc, &from, reference, inward);
        let ghost acts = actions_view(actions@);
        let ghost fv = opt_id(from);
        let ghost iv = id@;
        self.commit(actions, now_ms, None);
        self.selection.set_selection(&self.doc, from, Some(id.clone()));
        self.selection.mode = Mode::EditNode(id);
        assert(creates(old(self)@.doc, fv, reference@, inward, iv, acts));
        assert(self@ == created_state(old(self)@, fv, iv, acts, now_ms));
    }

    /// Creates a node on its own at the top level and opens the editor on it.
    pub fn cmd_new_island(&mut self, now_ms: u64)
        ensures
            exists|id: Seq<char>, acts: Seq<ActionView>|
                {
                    &&& creates(old(self)@.doc, None, Seq::<char>::empty(), false, id, acts)
                    &&& final(self)@ == created_state(old(self)@, None, id, acts, now_ms)
                },
    {
        let reference = NodeId(String::new());
        proof {
            assert(reference@ =~= Seq::<char>::empty());
        }
        self.create_selected(None, &reference, false, now_ms);
    }

    /// Creates a node after the primary one (linked towards it when the
    /// selection runs against the links, else away from it), in the same
    /// containers, and opens the editor on it; with nothing selected, a node
    /// on its own.
    pub fn cmd_new_next(&mut self, now_ms: u64)
        ensures
            exists|id: Seq<char>, acts: Seq<ActionView>|
                {
                    &&& match old(self)@.selection.end {
                        Some(f) => creates(
                            old(self)@.doc,
                            Some(f),
                            f,
                            match old(self)@.selection.start {
                                Some(s) => crate::selection::spec_inward(old(self)@.doc, s, f),
                                None => false,
                            },
                            id,
                            acts,
                        ),
                        None => creates(old(self)@.doc, None, Seq::<char>::empty(), false, id, acts),
                    }
                    &&& final(self)@ == created_state(old(self)@, old(self)@.selection.end, id, acts, now_ms)
                },
    {
        let inward = inward_direction(&self.doc, &self.selection.start, &self.selection.end);
        match self.selection.focus_node() {
            Some(focus) => {
                let reference = focus.clone();
                self.create_selected(Some(focus), &reference, inward, now_ms);
            },
            None => {
                self.cmd_new_island(now_ms);
            },
        }
    }

    /// Opens the search, for `target`, with an empty query.
    pub fn cmd_search(&mut self, target: SearchTarget)
        ensures
            final(self)@ == (EditorView {
                search_query: Seq::<char>::empty(),
                search_index: 0,
                selection: SelectionView { mode: ModeView::Search(target), ..old(self)@.selection },
                ..old(self)@
            }),
    {
        self.search_query = String::new();
        self.search_index = 0;
        self.selection.mode = Mode::Search(target);
        assert(self.search_query@ =~= Seq::<char>::empty());
    }

    /// Changes what the search looks for; the first result becomes current.
    pub fn cmd_search_query(&mut self, query: String)
        ensures
            final(self)@ == (EditorView { search_query: query@, search_index: 0, ..old(self)@ }),
    {
        self.search_query = query;
        self.search_index = 0;
    }

    /// Moves `delta` places through the search's results among the shown
    /// nodes `shown`, wrapping around; nothing happens without results.
    pub fn cmd_search_move(&mut self, shown: &[NodeId], delta: i64)
        requires
            shown.len() <= i64::MAX,
            old(self).search_index <= i64::MAX,
            i64::MIN <= old(self).search_index + delta <= i64::MAX,
        ensures
            ({
                let n = spec_search(old(self)@.doc, ids_view(shown@), lowercase_of(old(self)@.search_query)).len();
                final(self)@ == if n == 0 {
                    old(self)@
                } else {
                    EditorView { search_index: ((old(self)@.search_index + delta) % (n as int)) as usize, ..old(self)@ }
                }
            }),
    {
        let results = search_results(&self.doc, shown, &self.search_query);
        proof {
            crate::search::lemma_search_len(self.doc@, ids_view(shown@), lowercase_of(self.search_query@));
            assert(crate::search::hits_view(results@).len() == results@.len());
        }
        if let Some(i) = crate::commands::search_index_after(results.len(), self.search_index, delta) {
            self.search_index = i;
        }
    }

    /// Takes the current search result: with target replace it becomes the
    /// whole selection, with target extend the primary node after the
    /// current selection; the search closes. Nothing happens outside a
    /// search or without a current result.
    pub fn cmd_search_accept(&mut self, shown: &[NodeId])
        ensures
            ({
                let res = spec_search(old(self)@.doc, ids_view(shown@), lowercase_of(old(self)@.search_query));
                let i = old(self)@.search_index as int;
                let s = old(self)@.selection;
                final(self)@ == match s.mode {
                    ModeView::Search(t) => if i < res.len() {
                        let picked = match t {
                            SearchTarget::Replace => spec_set_selection(old(self)@.doc, s, None, Some(res[i].0)),
                            SearchTarget::Extend => spec_set_selection(
                                old(self)@.doc,
                                s,
                                if s.start is Some {
                                    s.start
                                } else {
                                    s.end
                                },
                                Some(res[i].0),
                            ),
                        };
                        EditorView { selection: SelectionView { mode: ModeView::Layers, ..picked }, ..old(self)@ }
                    } else {
                        old(self)@
                    },
                    _ => old(self)@,
                }
            }),
    {
        let target = match &self.selection.mode {
            Mode::Search(t) => *t,
            _ => {
                return;
            },
        };
        let results = search_results(&self.doc, shown, &self.search_query);
        if self.search_index >= results.len() {
            return;
        }
        let id = results[self.search_index].0.clone();
        proof {
            assert(crate::search::hits_view(results@)[self.search_index as int].0 == id@);
        }
        match target {
            SearchTarget::Replace => self.selection.select_only(&self.doc, id),
            SearchTarget::Extend => self.selection.extend_selection(&self.doc, id),
        }
        self.selection.mode = Mode::Layers;
    }

    /// Selects a layer of node `id` when the selected layer isn't one of
    /// its layers: its first layer becomes the selected one, as one undo
    /// level. Nothing happens for a missing node, one in no layer, or one in
    /// the selected layer.
    pub fn activate_node_layer(&mut self, id: &NodeId, now_ms: u64)
        ensures
            ({
                let d = old(self)@.doc;
                let i = node_pos(d, id@);
                final(self)@ == if i < 0 || d.nodes[i].layers.len() == 0 || (d.selected_layer matches Some(l)
                    && d.nodes[i].layers.contains(l)) {
                    old(self)@
                } else {
                    spec_editor_commit(old(self)@, seq![ActionView::SelectLayer(Some(d.nodes[i].layers[0]))], now_ms, None)
                }
            }),
    {
        let target = match self.doc.node(id) {
            Some(node) => {
                if node.layers.len() == 0 {
                    return;
                }
                let in_selected = match &self.doc.selected_layer {
                    Some(l) => crate::undo::contains_layer_id(&node.layers, l),
                    None => false,
                };
                if in_selected {
                    return;
                }
                assert(node@.layers[0] == node.layers@[0]@);
                node.layers[0].clone()
            },
            None => {
                return;
            },
        };
        let mut actions: Vec<Action> = Vec::new();
        actions.push(Action::SelectLayer(Some(target)));
        assert(actions_view(actions@) =~= seq![actions@[0]@]);
        self.commit(actions, now_ms, None);
    }

    /// Moves to another island of the layout: `roots` holds, for each
    /// island in order, the first node of its first rank, and `current` is
    /// the island of the primary node. The first island's root is selected
    /// when there is no current island, else the next or previous island's,
    /// cyclically; nothing happens without islands.
    pub fn cmd_island(&mut self, roots: &[Option<NodeId>], current: Option<usize>, forward: bool)
        requires
            current matches Some(i) ==> i < roots.len(),
        ensures
            roots.len() == 0 ==> final(self)@ == old(self)@,
            roots.len() > 0 ==> {
                let t = match current {
                    None => 0,
                    Some(i) => spec_cyclic_step(i as int, roots.len() as int, forward),
                };
                final(self)@ == (EditorView {
                    selection: spec_set_selection(old(self)@.doc, old(self)@.selection, None, opt_id(roots@[t])),
                    ..old(self)@
                })
            },
    {
        if roots.len() == 0 {
            return;
        }
        let t = island_target(current, roots.len(), forward);
        let root = match &roots[t] {
            Some(r) => Some(r.clone()),
            None => None,
        };
        self.selection.set_selection(&self.doc, None, root);
    }

    /// Moves to the next or previous link on the same side of the anchor:
    /// `side_edges` lists, in drawn order, the links on the side of the
    /// anchor where the selected link leaves it, each with its other end.
    /// That other end becomes the primary node and the link the selected
    /// one; nothing happens without an anchor, a selected link, or when the
    /// list lacks the selected link.
    pub fn cmd_sibling(&mut self, side_edges: &[(EdgeId, NodeId)], dir: Dir)
        ensures
            ({
                let v = old(self)@.selection;
                match (v.start, v.edge) {
                    (Some(s), Some(cur)) => if exists|i: int| 0 <= i < side_edges@.len() && side_edges@[i].0@ == cur {
                        let i = choose|i: int|
                            0 <= i < side_edges@.len() && side_edges@[i].0@ == cur && forall|j: int|
                                0 <= j < i ==> side_edges@[j].0@ != cur;
                        let t = spec_cyclic_step(i, side_edges@.len() as int, dir == Dir::Next);
                        let picked = spec_set_selection(old(self)@.doc, v, Some(s), Some(side_edges@[t].1@));
                        final(self)@ == (EditorView {
                            selection: SelectionView { edge: Some(side_edges@[t].0@), ..picked },
                            ..old(self)@
                        })
                    } else {
                        final(self)@ == old(self)@
                    },
                    _ => final(self)@ == old(self)@,
                }
            }),
    {
        let (start, cur) = match (&self.selection.start, &self.selection.edge) {
            (Some(s), Some(c)) => (s.clone(), c.clone()),
            _ => {
                return;
            },
        };
        let mut found: Option<usize> = None;
        let mut i: usize = 0;
        while i < side_edges.len()
            invariant
                i <= side_edges@.len(),
                found is None ==> forall|j: int| 0 <= j < i ==> side_edges@[j].0@ != cur@,
                found matches Some(k) ==> k < side_edges@.len() && side_edges@[k as int].0@ == cur@ && forall|j: int|
                    0 <= j < k ==> side_edges@[j].0@ != cur@,
            decreases side_edges@.len() - i,
        {
            if found.is_none() && side_edges[i].0 == cur {
                found = Some(i);
            }
            i = i + 1;
        }
        let k = match found {
            Some(k) => k,
            None => {
                return;
            },
        };
        proof {
            let c = choose|c: int|
                0 <= c < side_edges@.len() && side_edges@[c].0@ == cur@ && forall|j: int|
                    0 <= j < c ==> side_edges@[j].0@ != cur@;
            if c < k {
                assert(side_edges@[c].0@ != cur@);
            } else if k < c {
                assert(side_edges@[k as int].0@ != cur@);
            }
        }
        let forward = match dir {
            Dir::Next => true,
            Dir::Prev => false,
        };
        let t = cyclic_step(k, side_edges.len(), forward);
        let (edge, other) = (side_edges[t].0.clone(), side_edges[t].1.clone());
        self.selection.set_selection(&self.doc, Some(start), Some(other));
        self.selection.edge = Some(edge);
    }

    /// The primary node; when nothing is selected, `first` (the first
    /// shown node) is selected alone and returned.
    pub fn ensure_focus(&mut self, first: Option<NodeId>) -> (r: Option<NodeId>)
        ensures
            old(self)@.selection.end is Some ==> opt_id(r) == old(self)@.selection.end && final(self)@ == old(self)@,
            old(self)@.selection.end is None ==> opt_id(r) == opt_id(first) && final(self)@ == match first {
                Some(f) => EditorView {
                    selection: spec_set_selection(old(self)@.doc, old(self)@.selection, None, Some(f@)),
                    ..old(self)@
                },
                None => old(self)@,
            },
    {
        if let Some(e) = self.selection.focus_node() {
            return Some(e);
        }
        match first {
            Some(f) => {
                self.selection.select_only(&self.doc, f.clone());
                Some(f)
            },
            None => None,
        }
    }

    /// Moves the primary node to the candidate after it (`candidates` being
    /// the anchor's next or previous nodes in drawn order), keeping the
    /// anchor: the first candidate when the primary isn't one, cyclically;
    /// the anchor alone when there are no candidates. Nothing happens with
    /// nothing selected.
    pub fn cycle_relative(&mut self, candidates: &[NodeId])
        ensures
            ({
                let v = old(self)@.selection;
                let anchor = if v.start is Some {
                    v.start
                } else {
                    v.end
                };
                final(self)@ == if anchor is None {
                    old(self)@
                } else {
                    EditorView {
                        selection: spec_set_selection(
                            old(self)@.doc,
                            v,
                            anchor,
                            spec_cycle_next(crate::document::node_ids_view(candidates@), v.end),
                        ),
                        ..old(self)@
                    }
                }
            }),
    {
        let anchor = self.selection.anchor_node();
        if anchor.is_none() {
            return;
        }
        let picked = cycle_next(candidates, &self.selection.end);
        self.selection.set_selection(&self.doc, anchor, picked);
    }

    /// Steps past the primary node: of `candidates` (its next or previous
    /// nodes), those other than itself, the most recently selected becomes
    /// the primary with the old one as the anchor. Nothing happens with
    /// nothing selected.
    pub fn step_to(&mut self, candidates: &[NodeId])
        ensures
            old(self)@.selection.end is None ==> final(self)@ == old(self)@,
            old(self)@.selection.end matches Some(f) ==> exists|pick: Option<Seq<char>>|
                {
                    &&& #[trigger] recent_pick(
                        old(self)@.selection.recent,
                        crate::document::node_ids_view(candidates@).filter(crate::selection::other_than(f)),
                        pick,
                    )
                    &&& final(self)@ == (EditorView {
                        selection: spec_set_selection(old(self)@.doc, old(self)@.selection, Some(f), pick),
                        ..old(self)@
                    })
                },
    {
        let focus = match self.selection.focus_node() {
            Some(f) => f,
            None => {
                return;
            },
        };
        let ghost cv = crate::document::node_ids_view(candidates@);
        let ghost keep = crate::selection::other_than(focus@);
        let mut others: Vec<NodeId> = Vec::new();
        for i in 0..candidates.len()
            invariant
                cv == crate::document::node_ids_view(candidates@),
                keep == crate::selection::other_than(focus@),
                crate::document::node_ids_view(others@) == cv.take(i as int).filter(keep),
        {
            proof {
                assert(cv[i as int] == candidates@[i as int]@);
                assert(cv.take(i + 1) =~= cv.take(i as int).push(cv[i as int]));
                cv.take(i as int).lemma_filter_push(cv[i as int], keep);
            }
            if candidates[i] != focus {
                let ghost before = crate::document::node_ids_view(others@);
                others.push(candidates[i].clone());
                assert(crate::document::node_ids_view(others@) =~= before.push(cv[i as int]));
            }
        }
        assert(cv.take(candidates.len() as int) =~= cv);
        let pick = crate::selection::pick_recent(&self.selection.recent, &others);
        let ghost pv = opt_id(pick);
        proof {
            let ov = crate::document::node_ids_view(others@);
            let rv = self.selection@.recent;
            assert(ov == cv.filter(keep));
            assert(rv == old(self)@.selection.recent);
            match pv {
                Some(c) => {
                    let k = choose|k: int|
                        0 <= k < others@.len() && c == others@[k]@ && (forall|j: int|
                            0 <= j < k ==> crate::selection::spec_recency(rv, #[trigger] others@[j]@)
                                < crate::selection::spec_recency(rv, others@[k]@)) && (forall|j: int|
                            0 <= j < others@.len() ==> crate::selection::spec_recency(rv, #[trigger] others@[j]@)
                                <= crate::selection::spec_recency(rv, others@[k]@));
                    assert(ov[k] == others@[k]@);
                    assert forall|j: int| 0 <= j < k implies crate::selection::spec_recency(rv, #[trigger] ov[j])
                        < crate::selection::spec_recency(rv, ov[k]) by {
                        assert(ov[j] == others@[j]@);
                    }
                    assert forall|j: int| 0 <= j < ov.len() implies crate::selection::spec_recency(rv, #[trigger] ov[j])
                        <= crate::selection::spec_recency(rv, ov[k]) by {
                        assert(ov[j] == others@[j]@);
                    }
                    assert(recent_pick(rv, ov, pv));
                },
                None => {},
            }
        }
        self.selection.set_selection(&self.doc, Some(focus), pick);
        assert(recent_pick(old(self)@.selection.recent, cv.filter(keep), pv));
    }

    /// The containers node `id` is drawn in: its visible parents other
    /// than itself, in the order it lists them.
    pub fn parent_nodes(&self, id: &NodeId) -> (r: Vec<NodeId>)
        ensures
            node_ids_view(r@) == candidate_parents(self@.doc, visible_ids(self@.doc), id@),
    {
        visible_parents(&self.doc, id)
    }

    /// Of the shown nodes `shown`, those drawn inside node `id`, in shown
    /// order.
    pub fn child_nodes(&self, shown: &[NodeId], id: &NodeId) -> (r: Vec<NodeId>)
        ensures
            node_ids_view(r@) == node_ids_view(shown@).filter(contained_in(self@.doc, id@)),
    {
        let ghost sv = node_ids_view(shown@);
        let ghost f = contained_in(self@.doc, id@);
        let mut out: Vec<NodeId> = Vec::new();
        for i in 0..shown.len()
            invariant
                sv == node_ids_view(shown@),
                f == contained_in(self@.doc, id@),
                node_ids_view(out@) == sv.take(i as int).filter(f),
        {
            let c = &shown[i];
            proof {
                assert(sv[i as int] == c@);
                assert(sv.take(i + 1) =~= sv.take(i as int).push(sv[i as int]));
                sv.take(i as int).lemma_filter_push(sv[i as int], f);
            }
            let ps = visible_parents(&self.doc, c);
            if contains_node_id(&ps, id) {
                let ghost before = node_ids_view(out@);
                out.push(c.clone());
                assert(node_ids_view(out@) =~= before.push(c@));
            }
        }
        assert(sv.take(shown.len() as int) =~= sv);
        out
    }

    /// Enters the primary node: of the shown nodes `shown` drawn inside it,
    /// the most recently selected becomes the primary, keeping the anchor.
    /// Nothing happens with nothing selected or nothing inside.
    pub fn cmd_enter(&mut self, shown: &[NodeId])
        ensures
            old(self)@.selection.end is None ==> final(self)@ == old(self)@,
            old(self)@.selection.end matches Some(f) ==> exists|pick: Option<Seq<char>>|
                {
                    &&& #[trigger] recent_pick(
                        old(self)@.selection.recent,
                        node_ids_view(shown@).filter(contained_in(old(self)@.doc, f)),
                        pick,
                    )
                    &&& final(self)@ == match pick {
                        Some(c) => (EditorView {
                            selection: spec_set_selection(
                                old(self)@.doc,
                                old(self)@.selection,
                                old(self)@.selection.start,
                                Some(c),
                            ),
                            ..old(self)@
                        }),
                        None => old(self)@,
                    }
                },
    {
        let focus = match self.selection.focus_node() {
            Some(f) => f,
            None => {
                return;
            },
        };
        let children = self.child_nodes(shown, &focus);
        let pick = recent_choice(&self.selection.recent, &children);
        let ghost pv = opt_id(pick);
        let ghost cands = node_ids_view(shown@).filter(contained_in(old(self)@.doc, old(self)@.selection.end->0));
        assert(node_ids_view(children@) == cands);
        assert(recent_pick(old(self)@.selection.recent, cands, pv));
        if let Some(child) = pick {
            self.selection.set_end(&self.doc, Some(child));
        }
    }

    /// Leaves the primary node for the container it is drawn in that was
    /// selected most recently, keeping the anchor; without a container the
    /// anchor is dropped, and without an anchor the selection is cleared.
    pub fn cmd_exit(&mut self)
        ensures
            exists|pick: Option<Seq<char>>|
                {
                    &&& #[trigger] recent_pick(old(self)@.selection.recent, exit_candidates(old(self)@), pick)
                    &&& final(self)@ == exit_result(old(self)@, pick)
                },
    {
        let parents = match self.selection.focus_node() {
            Some(f) => self.parent_nodes(&f),
            None => Vec::new(),
        };
        assert(node_ids_view(parents@) == exit_candidates(old(self)@));
        let pick = recent_choice(&self.selection.recent, &parents);
        let ghost pv = opt_id(pick);
        assert(recent_pick(old(self)@.selection.recent, exit_candidates(old(self)@), pv));
        match pick {
            Some(p) => {
                self.selection.set_end(&self.doc, Some(p));
            },
            None => {
                if self.selection.start.is_some() {
                    self.selection.set_start(&self.doc, None);
                } else {
                    self.selection.clear_selection(&self.doc);
                }
            },
        }
    }

    /// Escape: out of an editor or the search back to the layers; from
    /// there, leaves the primary node as `cmd_exit` does.
    pub fn cmd_escape(&mut self)
        ensures
            old(self)@.selection.mode == ModeView::Layers ==> exists|pick: Option<Seq<char>>|
                {
                    &&& #[trigger] recent_pick(old(self)@.selection.recent, exit_candidates(old(self)@), pick)
                    &&& final(self)@ == exit_result(old(self)@, pick)
                },
            old(self)@.selection.mode != ModeView::Layers ==> final(self)@ == (EditorView {
                selection: SelectionView { mode: ModeView::Layers, ..old(self)@.selection },
                ..old(self)@
            }),
    {
        let in_layers = match &self.selection.mode {
            Mode::Layers => true,
            _ => false,
        };
        if in_layers {
            self.cmd_exit();
        } else {
            self.selection.mode = Mode::Layers;
        }
    }

    /// The pointer enters or leaves search result `id` (among the results
    /// for the shown nodes `shown`): entering previews it; leaving the
    /// previewed result previews the current result instead.
    pub fn cmd_search_hover(&mut self, shown: &[NodeId], id: &NodeId, entering: bool)
        ensures
            final(self)@ == if entering {
                EditorView { peek: Some(id@), ..old(self)@ }
            } else if old(self)@.peek == Some(id@) {
                let res = spec_search(old(self)@.doc, ids_view(shown@), lowercase_of(old(self)@.search_query));
                EditorView {
                    peek: if (old(self)@.search_index as int) < res.len() {
                        Some(res[old(self)@.search_index as int].0)
                    } else {
                        None
                    },
                    ..old(self)@
                }
            } else {
                old(self)@
            },
    {
        if entering {
            self.peek = Some(id.clone());
            return;
        }
        let same = match &self.peek {
            Some(p) => *p == *id,
            None => false,
        };
        if same {
            self.peek = crate::search::search_current(&self.doc, shown, &self.search_query, self.search_index);
        }
    }

    /// The node a new sibling hangs off: the anchor, else the most recently
    /// selected of `prev_candidates` (the primary node's previous nodes).
    pub fn sibling_source(&self, prev_candidates: &[NodeId]) -> (r: Option<NodeId>)
        ensures
            self@.selection.start is Some ==> opt_id(r) == self@.selection.start,
            self@.selection.start is None ==> recent_pick(
                self@.selection.recent,
                crate::document::node_ids_view(prev_candidates@),
                opt_id(r),
            ),
    {
        if let Some(s) = &self.selection.start {
            return Some(s.clone());
        }
        let pick = crate::selection::pick_recent(&self.selection.recent, prev_candidates);
        proof {
            let cv = crate::document::node_ids_view(prev_candidates@);
            let rv = self@.selection.recent;
            match opt_id(pick) {
                Some(c) => {
                    let k = choose|k: int|
                        0 <= k < prev_candidates@.len() && c == prev_candidates@[k]@ && (forall|j: int|
                            0 <= j < k ==> crate::selection::spec_recency(rv, #[trigger] prev_candidates@[j]@)
                                < crate::selection::spec_recency(rv, prev_candidates@[k]@)) && (forall|j: int|
                            0 <= j < prev_candidates@.len() ==> crate::selection::spec_recency(
                                rv,
                                #[trigger] prev_candidates@[j]@,
                            ) <= crate::selection::spec_recency(rv, prev_candidates@[k]@));
                    assert(cv[k] == prev_candidates@[k]@);
                    assert forall|j: int| 0 <= j < k implies crate::selection::spec_recency(rv, #[trigger] cv[j])
                        < crate::selection::spec_recency(rv, cv[k]) by {
                        assert(cv[j] == prev_candidates@[j]@);
                    }
                    assert forall|j: int| 0 <= j < cv.len() implies crate::selection::spec_recency(rv, #[trigger] cv[j])
                        <= crate::selection::spec_recency(rv, cv[k]) by {
                        assert(cv[j] == prev_candidates@[j]@);
                    }
                },
                None => {},
            }
        }
        pick
    }

    /// Creates a sibling of the primary node: hanging off the anchor (or
    /// the most recently selected of `prev_candidates`), next to the
    /// primary node, and opens the editor on it.
    pub fn cmd_new_sibling(&mut self, prev_candidates: &[NodeId], now_ms: u64)
        ensures
            exists|from: Option<Seq<char>>, id: Seq<char>, acts: Seq<ActionView>|
                {
                    &&& (if old(self)@.selection.start is Some {
                        from == old(self)@.selection.start
                    } else {
                        recent_pick(
                            old(self)@.selection.recent,
                            crate::document::node_ids_view(prev_candidates@),
                            from,
                        )
                    })
                    &&& creates(
                        old(self)@.doc,
                        from,
                        match old(self)@.selection.end {
                            Some(f) => f,
                            None => Seq::<char>::empty(),
                        },
                        match (old(self)@.selection.start, old(self)@.selection.end) {
                            (Some(s), Some(e)) => crate::selection::spec_inward(old(self)@.doc, s, e),
                            _ => false,
                        },
                        id,
                        acts,
                    )
                    &&& final(self)@ == #[trigger] created_state(old(self)@, from, id, acts, now_ms)
                },
    {
        let inward = inward_direction(&self.doc, &self.selection.start, &self.selection.end);
        let from = self.sibling_source(prev_candidates);
        let ghost fv = opt_id(from);
        let reference = match self.selection.focus_node() {
            Some(f) => f,
            None => NodeId(String::new()),
        };
        proof {
            if old(self)@.selection.end is None {
                assert(reference@ =~= Seq::<char>::empty());
            }
        }
        self.create_selected(from, &reference, inward, now_ms);
    }
}

} // verus!

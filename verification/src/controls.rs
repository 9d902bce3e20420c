//! The interactive visualizer's decisions: how each user input changes the
//! view state and what the view must then do.
//!
//! Geometry (positions, camera, zoom) and drawing stay with the caller, which
//! polls the inputs, feeds them here one at a time in the order it handles
//! them, and performs the returned action.
use vstd::prelude::*;

verus! {

/// One user input, as the visualizer handles it within a frame.
#[derive(Clone, Copy, Debug, PartialEq, Eq, Structural)]
pub enum Input {
    /// Left button pressed; the node under the cursor, if any.
    LeftPressed(Option<usize>),
    /// Left button held down.
    LeftHeld,
    /// Left button released.
    LeftReleased,
    /// Right button pressed: search from the cursor.
    RightPressed,
    /// Add a node at the cursor.
    AddKey,
    /// Remove the selected node.
    DeleteKey,
    /// One more neighbor per node.
    MoreNeighbors,
    /// One neighbor fewer per node.
    FewerNeighbors,
    /// Switch between L2 and cosine.
    ToggleMetric,
    /// Pause or resume the layout.
    TogglePause,
    /// Clear the search and the selection.
    Escape,
    /// Reset the camera.
    ResetView,
}

/// What the view must do after an input.
#[derive(Clone, Copy, Debug, PartialEq, Eq, Structural)]
pub enum Action {
    Nothing,
    /// Move the node at this index to the cursor and stop it.
    DragNode(usize),
    /// Pan the camera by the cursor's movement.
    Pan,
    /// Run a search from the cursor and show it.
    RunSearch,
    /// Add a node at the cursor.
    AddNode,
    /// Remove the node at this index and hide the search.
    RemoveNode(usize),
    /// Hide the search.
    ClearSearch,
    /// Reset the camera.
    ResetCamera,
}

/// The visualizer's discrete state.
#[derive(Clone, Copy, Debug, PartialEq, Eq, Structural)]
pub struct ViewState {
    /// Neighbors linked per node.
    pub k: usize,
    /// Cosine rather than L2.
    pub use_cosine: bool,
    /// Layout paused.
    pub paused: bool,
    /// The k-NN edges must be recomputed.
    pub dirty: bool,
    /// The node being dragged.
    pub dragging: Option<usize>,
    /// The camera is being panned.
    pub panning: bool,
    /// The selected node.
    pub selected: Option<usize>,
}

/// The state after `input` with `nodes` nodes on screen, and the action.
pub open spec fn transition(s: ViewState, input: Input, nodes: nat) -> (ViewState, Action) {
    match input {
        Input::LeftPressed(Some(i)) => (ViewState { dragging: Some(i), selected: Some(i), ..s }, Action::Nothing),
        Input::LeftPressed(None) => (ViewState { panning: true, selected: None, ..s }, Action::Nothing),
        Input::LeftHeld => (
            s,
            match s.dragging {
                Some(i) => Action::DragNode(i),
                None => if s.panning { Action::Pan } else { Action::Nothing },
            },
        ),
        Input::LeftReleased => (ViewState { dragging: None, panning: false, ..s }, Action::Nothing),
        Input::RightPressed => (s, Action::RunSearch),
        Input::AddKey => (ViewState { dirty: true, ..s }, Action::AddNode),
        Input::DeleteKey => match s.selected {
            Some(i) => (ViewState { selected: None, dragging: None, dirty: true, ..s }, Action::RemoveNode(i)),
            None => (s, Action::Nothing),
        },
        Input::MoreNeighbors => {
            let cap: int = if nodes >= 2 { nodes - 1 } else { 1 };
            let k: int = if s.k + 1 < cap { s.k + 1 } else { cap };
            (ViewState { k: k as usize, dirty: true, ..s }, Action::Nothing)
        },
        Input::FewerNeighbors => {
            let k: int = if s.k >= 2 { s.k - 1 } else { 1 };
            (ViewState { k: k as usize, dirty: true, ..s }, Action::Nothing)
        },
        Input::ToggleMetric => (ViewState { use_cosine: !s.use_cosine, dirty: true, ..s }, Action::ClearSearch),
        Input::TogglePause => (ViewState { paused: !s.paused, ..s }, Action::Nothing),
        Input::Escape => (ViewState { selected: None, ..s }, Action::ClearSearch),
        Input::ResetView => (s, Action::ResetCamera),
    }
}

impl ViewState {
    /// At least one neighbor is linked per node.
    pub open spec fn wf(self) -> bool {
        self.k >= 1
    }

    /// The state the visualizer opens with: two neighbors per node, L2,
    /// running, edges to compute, nothing selected.
    pub fn new() -> (s: Self)
        ensures
            s.wf(),
            s == (ViewState {
                k: 2,
                use_cosine: false,
                paused: false,
                dirty: true,
                dragging: None,
                panning: false,
                selected: None,
            }),
    {
        ViewState {
            k: 2,
            use_cosine: false,
            paused: false,
            dirty: true,
            dragging: None,
            panning: false,
            selected: None,
        }
    }

    /// Apply one input, with `nodes` nodes on screen; returns what the view
    /// must do.
    pub fn step(&mut self, input: Input, nodes: usize) -> (action: Action)
        requires
            old(self).wf(),
        ensures
            final(self).wf(),
            (*final(self), action) == transition(*old(self), input, nodes as nat),
            input == Input::LeftReleased ==> final(self).dragging is None && !final(self).panning,
            input == Input::LeftPressed(None) ==> final(self).selected is None && final(self).panning,
            old(self).dirty ==> final(self).dirty,
            needs_rebuild(*old(self), *final(self), action) ==> final(self).dirty,
            (input == Input::AddKey || input == Input::MoreNeighbors || input == Input::FewerNeighbors
                || input == Input::ToggleMetric) ==> final(self).dirty,
    {
        match input {
            Input::LeftPressed(Some(i)) => {
                self.dragging = Some(i);
                self.selected = Some(i);
                Action::Nothing
            },
            Input::LeftPressed(None) => {
                self.panning = true;
                self.selected = None;
                Action::Nothing
            },
            Input::LeftHeld => {
                match self.dragging {
                    Some(i) => Action::DragNode(i),
                    None => if self.panning {
                        Action::Pan
                    } else {
                        Action::Nothing
                    },
                }
            },
            Input::LeftReleased => {
                self.dragging = None;
                self.panning = false;
                Action::Nothing
            },
            Input::RightPressed => Action::RunSearch,
            Input::AddKey => {
                self.dirty = true;
                Action::AddNode
            },
            Input::DeleteKey => {
                match self.selected {
                    Some(i) => {
                        self.selected = None;
                        self.dragging = None;
                        self.dirty = true;
                        Action::RemoveNode(i)
                    },
                    None => Action::Nothing,
                }
            },
            Input::MoreNeighbors => {
                let cap = if nodes >= 2 { nodes - 1 } else { 1 };
                self.k = if self.k < cap - 1 { self.k + 1 } else { cap };
                self.dirty = true;
                Action::Nothing
            },
            Input::FewerNeighbors => {
                self.k = if self.k >= 2 { self.k - 1 } else { 1 };
                self.dirty = true;
                Action::Nothing
            },
            Input::ToggleMetric => {
                self.use_cosine = !self.use_cosine;
                self.dirty = true;
                Action::ClearSearch
            },
            Input::TogglePause => {
                self.paused = !self.paused;
                Action::Nothing
            },
            Input::Escape => {
                self.selected = None;
                Action::ClearSearch
            },
            Input::ResetView => Action::ResetCamera,
        }
    }

    /// The k-NN edges have been recomputed.
    pub fn mark_rebuilt(&mut self)
        ensures
            *final(self) == (ViewState { dirty: false, ..*old(self) }),
    {
        self.dirty = false;
    }
}

/// Toggling the metric, or pausing, twice in a row restores the state, apart
/// from the edges being marked for recomputation.
pub proof fn lemma_toggle_twice(s: ViewState, nodes: nat)
    ensures
        transition(transition(s, Input::ToggleMetric, nodes).0, Input::ToggleMetric, nodes).0 == (ViewState {
            dirty: true,
            ..s
        }),
        transition(transition(s, Input::TogglePause, nodes).0, Input::TogglePause, nodes).0 == s,
{
}

/// The neighbor count stays between 1 and the node count less one (or 1 when
/// there are fewer than two nodes) after `MoreNeighbors`, when it started there.
pub proof fn lemma_more_neighbors_bounded(s: ViewState, nodes: nat)
    requires
        s.wf(),
        nodes <= usize::MAX,
    ensures
        transition(s, Input::MoreNeighbors, nodes).0.wf(),
        transition(s, Input::MoreNeighbors, nodes).0.k <= if nodes >= 2 { nodes - 1 } else { 1 },
        transition(s, Input::MoreNeighbors, nodes).0.k <= s.k + 1,
{
}

/// The k-NN edges go stale when the node set changes (a node is added or
/// removed) or when the neighbor count or the metric changes.
pub open spec fn needs_rebuild(before: ViewState, after: ViewState, action: Action) -> bool {
    ||| action == Action::AddNode
    ||| action is RemoveNode
    ||| after.k != before.k
    ||| after.use_cosine != before.use_cosine
}

/// No input clears the mark that the edges must be recomputed (only
/// `mark_rebuilt` does), and every input that changes the node set, the
/// neighbor count or the metric sets it.
pub proof fn lemma_stale_edges_marked(s: ViewState, input: Input, nodes: nat)
    ensures
        s.dirty ==> transition(s, input, nodes).0.dirty,
        needs_rebuild(s, transition(s, input, nodes).0, transition(s, input, nodes).1) ==> transition(
            s,
            input,
            nodes,
        ).0.dirty,
{
}

/// Releasing the left button ends any drag and any pan, whatever the state:
/// holding the button afterwards moves nothing until the next press, and the
/// rest of the state is left as it was.
pub proof fn lemma_release_ends_drag(s: ViewState, nodes: nat)
    ensures
        transition(s, Input::LeftReleased, nodes).0.dragging is None,
        !transition(s, Input::LeftReleased, nodes).0.panning,
        transition(s, Input::LeftReleased, nodes).1 == Action::Nothing,
        transition(transition(s, Input::LeftReleased, nodes).0, Input::LeftHeld, nodes).1 == Action::Nothing,
        transition(s, Input::LeftReleased, nodes).0.selected == s.selected,
        transition(s, Input::LeftReleased, nodes).0.k == s.k,
        transition(s, Input::LeftReleased, nodes).0.dirty == s.dirty,
{
}

/// A press on empty space leaves nothing selected, so a following delete
/// removes nothing; holding the button then pans the camera unless a drag was
/// already under way.
pub proof fn lemma_press_on_empty_deselects(s: ViewState, nodes: nat)
    ensures
        transition(s, Input::LeftPressed(None), nodes).0.selected is None,
        transition(transition(s, Input::LeftPressed(None), nodes).0, Input::DeleteKey, nodes).1 == Action::Nothing,
        s.dragging is None ==> transition(transition(s, Input::LeftPressed(None), nodes).0, Input::LeftHeld, nodes).1
            == Action::Pan,
{
}

/// After a release, a press on empty space and a hold pan the camera: no node
/// from an earlier drag moves.
pub proof fn lemma_release_then_empty_press_pans(s: ViewState, nodes: nat)
    ensures
        ({
            let r = transition(s, Input::LeftReleased, nodes).0;
            let p = transition(r, Input::LeftPressed(None), nodes).0;
            transition(p, Input::LeftHeld, nodes).1 == Action::Pan
        }),
{
}

/// Adding a node asks the view to add it and marks the edges for
/// recomputation, so the new node gets its edges and component.
pub proof fn lemma_add_marks_rebuild(s: ViewState, nodes: nat)
    ensures
        transition(s, Input::AddKey, nodes).1 == Action::AddNode,
        transition(s, Input::AddKey, nodes).0.dirty,
        transition(s, Input::AddKey, nodes).0.k == s.k,
        transition(s, Input::AddKey, nodes).0.selected == s.selected,
{
}

/// Changing the neighbor count marks the edges for recomputation: one fewer
/// (never below 1) or one more (never above the node count less one, or 1).
pub proof fn lemma_neighbor_change_marks_rebuild(s: ViewState, nodes: nat)
    requires
        s.wf(),
        nodes <= usize::MAX,
    ensures
        transition(s, Input::FewerNeighbors, nodes).0.dirty,
        transition(s, Input::MoreNeighbors, nodes).0.dirty,
        transition(s, Input::FewerNeighbors, nodes).0.k == if s.k >= 2 { s.k - 1 } else { 1 },
        transition(s, Input::FewerNeighbors, nodes).0.k >= 1,
        transition(s, Input::FewerNeighbors, nodes).0.k <= s.k,
        s.k + 1 <= (if nodes >= 2 { nodes - 1 } else { 1 }) ==> transition(s, Input::MoreNeighbors, nodes).0.k == s.k
            + 1,
{
}

/// A press on node `i` selects it and starts dragging it, so holding the
/// button moves that node, and a delete then removes it.
pub proof fn lemma_press_on_node_drags_it(s: ViewState, i: usize, nodes: nat)
    ensures
        transition(s, Input::LeftPressed(Some(i)), nodes).0.dragging == Some(i),
        transition(s, Input::LeftPressed(Some(i)), nodes).0.selected == Some(i),
        transition(transition(s, Input::LeftPressed(Some(i)), nodes).0, Input::LeftHeld, nodes).1
            == Action::DragNode(i),
        transition(transition(s, Input::LeftPressed(Some(i)), nodes).0, Input::DeleteKey, nodes).1
            == Action::RemoveNode(i),
{
}

/// Holding the button changes no state; it drags the node being dragged, else
/// pans when panning, else does nothing.
pub proof fn lemma_hold_follows_state(s: ViewState, nodes: nat)
    ensures
        transition(s, Input::LeftHeld, nodes).0 == s,
        s.dragging matches Some(i) ==> transition(s, Input::LeftHeld, nodes).1 == Action::DragNode(i),
        s.dragging is None && s.panning ==> transition(s, Input::LeftHeld, nodes).1 == Action::Pan,
        s.dragging is None && !s.panning ==> transition(s, Input::LeftHeld, nodes).1 == Action::Nothing,
{
}

/// Delete removes the selected node, if any, and leaves nothing selected or
/// dragged (node indices shift after a removal); with nothing selected it does
/// nothing.
pub proof fn lemma_delete_removes_selected(s: ViewState, nodes: nat)
    ensures
        transition(s, Input::DeleteKey, nodes).0.selected is None,
        s.selected matches Some(i) ==> transition(s, Input::DeleteKey, nodes).1 == Action::RemoveNode(i)
            && transition(s, Input::DeleteKey, nodes).0.dragging is None
            && transition(s, Input::DeleteKey, nodes).0.dirty,
        s.selected is None ==> transition(s, Input::DeleteKey, nodes) == (s, Action::Nothing),
{
}

/// Escape hides the search and clears the selection, and nothing else.
pub proof fn lemma_escape_clears(s: ViewState, nodes: nat)
    ensures
        transition(s, Input::Escape, nodes) == (ViewState { selected: None, ..s }, Action::ClearSearch),
        transition(transition(s, Input::Escape, nodes).0, Input::DeleteKey, nodes).1 == Action::Nothing,
{
}

/// Switching the metric hides the search (its distances are of the other
/// metric) and marks the edges for recomputation; pausing only flips the
/// pause; a right press searches, a reset resets the camera, and neither
/// changes the state.
pub proof fn lemma_other_inputs(s: ViewState, nodes: nat)
    ensures
        transition(s, Input::ToggleMetric, nodes).1 == Action::ClearSearch,
        transition(s, Input::ToggleMetric, nodes).0.use_cosine != s.use_cosine,
        transition(s, Input::ToggleMetric, nodes).0.dirty,
        transition(s, Input::TogglePause, nodes) == (ViewState { paused: !s.paused, ..s }, Action::Nothing),
        transition(s, Input::RightPressed, nodes) == (s, Action::RunSearch),
        transition(s, Input::ResetView, nodes) == (s, Action::ResetCamera),
{
}

} // verus!

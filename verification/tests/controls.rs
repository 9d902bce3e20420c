use proxima::controls::{Action, Input, ViewState};

#[test]
fn opens_with_two_neighbors_and_l2() {
    let s = ViewState::new();
    assert_eq!(s.k, 2);
    assert!(!s.use_cosine && !s.paused && s.dirty);
    assert_eq!(s.selected, None);
}

#[test]
fn neighbor_count_is_bounded() {
    let mut s = ViewState::new();
    assert_eq!(s.step(Input::MoreNeighbors, 4), Action::Nothing);
    assert_eq!(s.k, 3);
    s.step(Input::MoreNeighbors, 4);
    assert_eq!(s.k, 3); // at most nodes - 1
    s.step(Input::MoreNeighbors, 1);
    assert_eq!(s.k, 1); // at least 1 even with one node
    s.step(Input::FewerNeighbors, 9);
    assert_eq!(s.k, 1);
    s.step(Input::MoreNeighbors, 9);
    s.step(Input::MoreNeighbors, 9);
    s.step(Input::FewerNeighbors, 9);
    assert_eq!(s.k, 2);
    assert!(s.dirty);
}

#[test]
fn select_drag_and_delete() {
    let mut s = ViewState::new();
    s.mark_rebuilt();
    assert!(!s.dirty);
    s.step(Input::LeftPressed(Some(3)), 5);
    assert_eq!(s.step(Input::LeftHeld, 5), Action::DragNode(3));
    assert_eq!(s.step(Input::DeleteKey, 5), Action::RemoveNode(3));
    assert_eq!(s.selected, None);
    assert_eq!(s.dragging, None);
    assert!(s.dirty);
    assert_eq!(s.step(Input::DeleteKey, 4), Action::Nothing);
}

#[test]
fn pressing_empty_space_pans() {
    let mut s = ViewState::new();
    s.step(Input::LeftPressed(None), 5);
    assert_eq!(s.step(Input::LeftHeld, 5), Action::Pan);
    s.step(Input::LeftReleased, 5);
    assert_eq!(s.step(Input::LeftHeld, 5), Action::Nothing);
}

#[test]
fn toggles_and_search_actions() {
    let mut s = ViewState::new();
    assert_eq!(s.step(Input::ToggleMetric, 3), Action::ClearSearch);
    assert!(s.use_cosine);
    s.step(Input::ToggleMetric, 3);
    assert!(!s.use_cosine);
    s.step(Input::TogglePause, 3);
    assert!(s.paused);
    assert_eq!(s.step(Input::RightPressed, 3), Action::RunSearch);
    assert_eq!(s.step(Input::AddKey, 3), Action::AddNode);
    assert_eq!(s.step(Input::ResetView, 3), Action::ResetCamera);
    s.step(Input::LeftPressed(Some(1)), 3);
    assert_eq!(s.step(Input::Escape, 3), Action::ClearSearch);
    assert_eq!(s.selected, None);
}

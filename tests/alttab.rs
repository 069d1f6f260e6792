use sway_alttab::stack::Stack;
use sway_alttab::stack_holder::StackHolder;
use sway_alttab::tree::{nodes, NodeLayout, NodeType, TreeNode, Window};
use sway_alttab::{ChordState, KeyEvent, SwayAlttab, WindowChange, WindowEvent};

const TAB: u32 = 15;
const ALT: u32 = 56;
const SHIFT: u32 = 42;

fn node(id: i64, node_type: NodeType, layout: NodeLayout, children: Vec<TreeNode>) -> TreeNode {
    TreeNode {
        id,
        name: None,
        node_type,
        layout,
        focused: false,
        nodes: children,
        floating_nodes: Vec::new(),
    }
}

fn view(id: i64) -> TreeNode {
    node(id, NodeType::Con, NodeLayout::NoLayout, Vec::new())
}

/// A root with one output and two workspaces: "1" holds a split with the
/// views 10 and 11 (focused) and the floating view 12; the scratchpad holds 13.
fn sample_tree() -> TreeNode {
    let mut focused = view(11);
    focused.focused = true;
    let split = node(5, NodeType::Con, NodeLayout::SplitH, vec![view(10), focused]);
    let mut ws = node(4, NodeType::Workspace, NodeLayout::SplitH, vec![split]);
    ws.name = Some("1".to_string());
    ws.floating_nodes = vec![node(12, NodeType::FloatingCon, NodeLayout::NoLayout, Vec::new())];
    let mut scratch = node(3, NodeType::Workspace, NodeLayout::SplitH, vec![view(13)]);
    scratch.name = Some("__i3_scratch".to_string());
    let output = node(2, NodeType::Output, NodeLayout::Output, vec![scratch, ws]);
    node(1, NodeType::Root, NodeLayout::SplitH, vec![output])
}

fn history(a: &SwayAlttab) -> Vec<i64> {
    (0..a.depth()).map(|d| a.get(d).unwrap()).collect()
}

fn key(code: u32, value: i32) -> KeyEvent {
    KeyEvent { code, value }
}

fn window(change: WindowChange, id: i64) -> WindowEvent {
    WindowEvent { change, id }
}

#[test]
fn tree_windows_skip_scratchpad() {
    let found = nodes(&sample_tree());
    assert_eq!(
        found,
        vec![
            Window { id: 10, focused: false },
            Window { id: 11, focused: true },
            Window { id: 12, focused: false },
        ]
    );
}

#[test]
fn tree_named_workspace_is_walked() {
    let mut ws = node(4, NodeType::Workspace, NodeLayout::SplitV, vec![view(7)]);
    ws.name = Some("__i3_scratchpad".to_string());
    assert_eq!(nodes(&ws), vec![Window { id: 7, focused: false }]);
}

#[test]
fn seeded_with_focused_first() {
    let a = SwayAlttab::new(TAB, ALT, SHIFT, &sample_tree());
    assert_eq!(history(&a), vec![11, 10, 12]);
    assert_eq!(a.chord_state(), ChordState::Idle);
}

#[test]
fn seeded_without_focus_keeps_tree_order() {
    let tree = node(1, NodeType::Root, NodeLayout::SplitH, vec![view(3), view(1), view(2)]);
    let a = SwayAlttab::new(TAB, ALT, SHIFT, &tree);
    assert_eq!(history(&a), vec![3, 1, 2]);
}

#[test]
fn chord_cycles_and_commits() {
    let mut a = SwayAlttab::new(TAB, ALT, SHIFT, &sample_tree());
    assert_eq!(a.process_keyboard_event(key(ALT, 1)), None);
    assert_eq!(a.chord_state(), ChordState::Holding);
    assert_eq!(a.process_keyboard_event(key(TAB, 1)), Some(10));
    assert_eq!(a.chord_state(), ChordState::Previewing);
    assert_eq!(a.process_keyboard_event(key(TAB, 0)), None);
    assert_eq!(a.process_keyboard_event(key(TAB, 1)), Some(12));
    assert_eq!(history(&a), vec![11, 10, 12]);
    assert_eq!(a.process_keyboard_event(key(ALT, 0)), None);
    assert_eq!(history(&a), vec![12, 11, 10]);
    assert_eq!(a.chord_state(), ChordState::Idle);
}

#[test]
fn chord_reverse_steps_back() {
    let mut a = SwayAlttab::new(TAB, ALT, SHIFT, &sample_tree());
    a.process_keyboard_event(key(ALT, 1));
    a.process_keyboard_event(key(SHIFT, 1));
    assert_eq!(a.process_keyboard_event(key(TAB, 1)), Some(12));
    assert_eq!(a.process_keyboard_event(key(TAB, 1)), Some(10));
    a.process_keyboard_event(key(SHIFT, 0));
    assert_eq!(a.process_keyboard_event(key(TAB, 1)), Some(12));
    a.process_keyboard_event(key(ALT, 0));
    assert_eq!(history(&a), vec![12, 11, 10]);
}

#[test]
fn trigger_without_modifier_is_ignored() {
    let mut a = SwayAlttab::new(TAB, ALT, SHIFT, &sample_tree());
    assert_eq!(a.process_keyboard_event(key(TAB, 1)), None);
    assert_eq!(a.process_keyboard_event(key(99, 1)), None);
    assert_eq!(a.chord_state(), ChordState::Idle);
    a.process_keyboard_event(key(ALT, 0));
    assert_eq!(history(&a), vec![11, 10, 12]);
}

#[test]
fn trigger_repeat_does_not_step() {
    let mut a = SwayAlttab::new(TAB, ALT, SHIFT, &sample_tree());
    a.process_keyboard_event(key(ALT, 1));
    assert_eq!(a.process_keyboard_event(key(TAB, 2)), None);
    assert_eq!(a.chord_state(), ChordState::Holding);
    a.process_keyboard_event(key(ALT, 0));
    assert_eq!(history(&a), vec![11, 10, 12]);
}

#[test]
fn echo_before_request_returns_is_swallowed() {
    let mut a = SwayAlttab::new(TAB, ALT, SHIFT, &sample_tree());
    a.process_keyboard_event(key(ALT, 1));
    let shown = a.process_keyboard_event(key(TAB, 1)).unwrap();
    assert!(!a.process_sway_event(window(WindowChange::Focus, shown)));
    assert_eq!(history(&a), vec![11, 10, 12]);
    a.process_sway_event(window(WindowChange::Focus, shown));
    assert_eq!(history(&a), vec![10, 11, 12]);
}

#[test]
fn other_focus_is_recorded() {
    let mut a = SwayAlttab::new(TAB, ALT, SHIFT, &sample_tree());
    a.process_keyboard_event(key(ALT, 1));
    a.process_keyboard_event(key(TAB, 1));
    a.process_sway_event(window(WindowChange::Focus, 12));
    assert_eq!(history(&a), vec![12, 11, 10]);
}

#[test]
fn failed_request_disarms_marker() {
    let mut a = SwayAlttab::new(TAB, ALT, SHIFT, &sample_tree());
    a.process_keyboard_event(key(ALT, 1));
    let shown = a.process_keyboard_event(key(TAB, 1)).unwrap();
    a.preview_failed();
    a.process_sway_event(window(WindowChange::Focus, shown));
    assert_eq!(history(&a), vec![10, 11, 12]);
}

#[test]
fn release_clears_marker() {
    let mut a = SwayAlttab::new(TAB, ALT, SHIFT, &sample_tree());
    a.process_keyboard_event(key(ALT, 1));
    a.process_keyboard_event(key(TAB, 1));
    a.process_keyboard_event(key(ALT, 0));
    assert_eq!(history(&a), vec![10, 11, 12]);
    a.process_sway_event(window(WindowChange::Focus, 12));
    a.process_sway_event(window(WindowChange::Focus, 10));
    assert_eq!(history(&a), vec![10, 12, 11]);
}

#[test]
fn lifecycle_events() {
    let mut a = SwayAlttab::new(TAB, ALT, SHIFT, &sample_tree());
    assert!(!a.process_sway_event(window(WindowChange::New, 20)));
    assert!(!a.process_sway_event(window(WindowChange::New, 10)));
    assert_eq!(history(&a), vec![11, 10, 12, 20]);
    assert!(!a.process_sway_event(window(WindowChange::Close, 10)));
    assert!(!a.process_sway_event(window(WindowChange::Close, 99)));
    assert_eq!(history(&a), vec![11, 12, 20]);
    assert!(!a.process_sway_event(window(WindowChange::Other, 12)));
    assert_eq!(history(&a), vec![11, 12, 20]);
}

#[test]
fn moved_window_comes_back_on_refresh() {
    let mut a = SwayAlttab::new(TAB, ALT, SHIFT, &sample_tree());
    assert!(a.process_sway_event(window(WindowChange::Move, 11)));
    assert_eq!(history(&a), vec![10, 12]);
    a.refresh_nodes(&sample_tree());
    assert_eq!(history(&a), vec![10, 12, 11]);
}

#[test]
fn modifier_release_without_preview_keeps_order() {
    let mut a = SwayAlttab::new(TAB, ALT, SHIFT, &sample_tree());
    a.process_keyboard_event(key(ALT, 1));
    a.process_keyboard_event(key(ALT, 0));
    a.process_keyboard_event(key(ALT, 0));
    assert_eq!(history(&a), vec![11, 10, 12]);
}

#[test]
fn no_duplicates_after_edits() {
    let mut s = Stack::new();
    for id in [3, 1, 3, 2, 1, 4, 2] {
        s.add(id);
        s.move_up(id);
    }
    s.remove(3);
    s.move_up(5);
    s.add(5);
    let all: Vec<i64> = (0..s.depth()).map(|d| s.get(d).unwrap()).collect();
    assert_eq!(all, vec![5, 2, 4, 1]);
}

#[test]
fn move_up_puts_id_first() {
    let mut s = Stack::new();
    assert_eq!(s.move_up(7), 7);
    assert_eq!(s.get(0), Some(7));
    s.add(8);
    s.move_up(8);
    assert_eq!(s.get(0), Some(8));
    assert_eq!(s.get(1), Some(7));
}

#[test]
fn removal_keeps_relative_order() {
    let mut s = Stack::new();
    for id in 1..=6 {
        s.add(id);
    }
    s.remove(4);
    s.remove(1);
    let all: Vec<i64> = (0..s.depth()).map(|d| s.get(d).unwrap()).collect();
    assert_eq!(all, vec![2, 3, 5, 6]);
}

#[test]
fn next_visits_every_window_once_per_round() {
    let mut s = StackHolder::new();
    for id in [4, 5, 6, 7] {
        s.add(id);
    }
    let seen: Vec<Option<i64>> = (0..8).map(|_| s.preview_next()).collect();
    let expected = vec![5, 6, 7, 4, 5, 6, 7, 4];
    assert_eq!(seen, expected.into_iter().map(Some).collect::<Vec<_>>());
}

#[test]
fn prev_retraces_next() {
    let mut fwd = StackHolder::new();
    let mut back = StackHolder::new();
    for id in [4, 5, 6, 7] {
        fwd.add(id);
        back.add(id);
    }
    fwd.preview_next();
    back.preview_next();
    let mut forward: Vec<Option<i64>> = (0..4).map(|_| fwd.preview_next()).collect();
    let backward: Vec<Option<i64>> = (0..4).map(|_| back.preview_prev()).collect();
    forward.pop();
    forward.reverse();
    forward.push(Some(5));
    assert_eq!(backward, forward);
}

#[test]
fn finish_twice_commits_once() {
    let mut s = StackHolder::new();
    for id in [1, 2, 3, 4] {
        s.add(id);
    }
    s.preview_prev();
    s.preview_finish();
    s.preview_finish();
    let all: Vec<i64> = (0..s.depth()).map(|d| s.get(d).unwrap()).collect();
    assert_eq!(all, vec![4, 1, 2, 3]);
}

#[test]
fn finish_on_empty_history() {
    let mut s = StackHolder::new();
    s.preview_finish();
    assert_eq!(s.depth(), 0);
    assert_eq!(s.get(0), None);
}

#[test]
fn cursor_past_end_after_removal() {
    let mut s = StackHolder::new();
    for id in [1, 2, 3] {
        s.add(id);
    }
    s.preview_next();
    s.preview_next();
    s.remove(1);
    assert_eq!(s.preview_prev(), Some(3));
    s.remove(2);
    s.remove(3);
    assert_eq!(s.preview_next(), None);
    assert_eq!(s.preview_prev(), None);
}

#[test]
fn prev_on_empty_history_keeps_cursor() {
    let mut s = StackHolder::new();
    for id in [1, 2, 3] {
        s.add(id);
    }
    s.preview_next();
    s.preview_next();
    for id in [1, 2, 3] {
        s.remove(id);
    }
    assert_eq!(s.preview_prev(), None);
    for id in [4, 5, 6] {
        s.add(id);
    }
    assert_eq!(s.preview_prev(), Some(5));
}

#[test]
fn next_on_empty_history_keeps_cursor() {
    let mut s = StackHolder::new();
    for id in [1, 2, 3] {
        s.add(id);
    }
    s.preview_next();
    s.preview_next();
    for id in [1, 2, 3] {
        s.remove(id);
    }
    assert_eq!(s.preview_next(), None);
    for id in [4, 5, 6, 7] {
        s.add(id);
    }
    assert_eq!(s.preview_next(), Some(7));
}

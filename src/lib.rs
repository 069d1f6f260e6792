//! Recency tracking and alt-tab style window cycling for a tiling compositor.
//!
//! [`SwayAlttab`] keeps the focus history of the compositor's windows and
//! turns a modifier-and-trigger key chord into a preview that cycles through
//! that history; the choice is committed when the modifier is released.
use vstd::prelude::*;
use crate::stack::{capped_len, entry_at, promoted, with_added, without};
use crate::stack_holder::{StackHolder, next_cursor, prev_cursor, finished};
use crate::tree::{TreeNode, Window, nodes, leaves};

pub mod stack;
pub mod stack_holder;
pub mod tree;
pub mod window_stack;

verus! {

/// A key transition read from the input device: the key's code, and its new
/// state (0 released, 1 pressed, 2 held down and repeating).
#[derive(Clone, Copy, Debug, PartialEq, Eq, Structural)]
pub struct KeyEvent {
    pub code: u32,
    pub value: i32,
}

/// What happened to a window, as the compositor reports it.
#[derive(Clone, Copy, Debug, PartialEq, Eq, Structural)]
pub enum WindowChange {
    /// The window was created.
    New,
    /// The window was closed.
    Close,
    /// The window got the focus.
    Focus,
    /// The window was moved to another place in the tree.
    Move,
    /// Any other change, which does not concern the history.
    Other,
}

/// A window notification from the compositor.
#[derive(Clone, Copy, Debug, PartialEq, Eq, Structural)]
pub struct WindowEvent {
    pub change: WindowChange,
    pub id: i64,
}

/// Where the key chord stands.
#[derive(Clone, Copy, Debug, PartialEq, Eq, Structural)]
pub enum ChordState {
    /// The modifier is not held.
    Idle,
    /// The modifier is held and no preview has begun.
    Holding,
    /// The modifier is held and the trigger has cycled the preview.
    Previewing,
}

/// The ids of `ws` added one after the other to the history `s`.
pub open spec fn added_all(s: Seq<i64>, ws: Seq<Window>) -> Seq<i64>
    decreases ws.len(),
{
    if ws.len() == 0 {
        s
    } else {
        with_added(added_all(s, ws.drop_last()), ws.last().id)
    }
}

/// The id of the first focused window of `ws`, if any.
pub open spec fn first_focused(ws: Seq<Window>) -> Option<i64>
    decreases ws.len(),
{
    if ws.len() == 0 {
        None
    } else if ws[0].focused {
        Some(ws[0].id)
    } else {
        first_focused(ws.drop_first())
    }
}

/// The history seeded from the windows `ws`: all of them in order, with the
/// focused one, if any, promoted to the head.
pub open spec fn seeded(ws: Seq<Window>) -> Seq<i64> {
    match first_focused(ws) {
        Some(id) => promoted(added_all(Seq::empty(), ws), id),
        None => added_all(Seq::empty(), ws),
    }
}

/// The window tracker: the focus history with its preview, the key chord, and
/// the marker of the focus request that this tracker sent last.
#[derive(Debug)]
pub struct SwayAlttab {
    key_tab: u32,
    key_alt: u32,
    key_sft: u32,
    psd_alt: bool,
    psd_sft: bool,
    previewing: bool,
    stack_holder: StackHolder,
    ignore_move_up: Option<i64>,
}

impl SwayAlttab {
    /// The focus history, most recent first.
    pub closed spec fn history(&self) -> Seq<i64> {
        self.stack_holder@
    }

    /// The depth that the preview shows.
    pub closed spec fn cursor(&self) -> int {
        self.stack_holder.cursor()
    }

    /// The window whose focus notification is to be swallowed, as the echo of
    /// a focus request of this tracker.
    pub closed spec fn marker(&self) -> Option<i64> {
        self.ignore_move_up
    }

    /// The code of the trigger key.
    pub closed spec fn key_tab(&self) -> u32 {
        self.key_tab
    }

    /// The code of the modifier key.
    pub closed spec fn key_alt(&self) -> u32 {
        self.key_alt
    }

    /// The code of the key that reverses the direction.
    pub closed spec fn key_sft(&self) -> u32 {
        self.key_sft
    }

    /// Whether the modifier is held.
    pub closed spec fn modifier_held(&self) -> bool {
        self.psd_alt
    }

    /// Whether the reversing key is held.
    pub closed spec fn reverse_held(&self) -> bool {
        self.psd_sft
    }

    /// Whether a preview has begun since the modifier went down.
    pub closed spec fn previewing(&self) -> bool {
        self.previewing
    }

    /// The history is well formed, and a preview runs only under the modifier.
    pub open spec fn wf(&self) -> bool {
        &&& self.history().no_duplicates()
        &&& 0 <= self.cursor() < usize::MAX
        &&& self.previewing() ==> self.modifier_held()
    }

    /// `self` has the same keys and key states as `other`.
    pub open spec fn same_chord(&self, other: &Self) -> bool {
        &&& self.key_tab() == other.key_tab()
        &&& self.key_alt() == other.key_alt()
        &&& self.key_sft() == other.key_sft()
        &&& self.modifier_held() == other.modifier_held()
        &&& self.reverse_held() == other.reverse_held()
    }

    /// `self` has the same history, preview and marker as `other`.
    pub open spec fn same_session(&self, other: &Self) -> bool {
        &&& self.history() == other.history()
        &&& self.cursor() == other.cursor()
        &&& self.marker() == other.marker()
        &&& self.previewing() == other.previewing()
    }

    /// Adds the windows of `ws` one after the other.
    fn add_windows(&mut self, ws: &Vec<Window>)
        requires
            old(self).wf(),
        ensures
            final(self).wf(),
            final(self).history() == added_all(old(self).history(), ws@),
            final(self).cursor() == old(self).cursor(),
            final(self).marker() == old(self).marker(),
            final(self).previewing() == old(self).previewing(),
            final(self).same_chord(old(self)),
    {
        let mut i: usize = 0;
        while i < ws.len()
            invariant
                0 <= i <= ws@.len(),
                self.wf(),
                self.history() == added_all(old(self).history(), ws@.subrange(0, i as int)),
                self.cursor() == old(self).cursor(),
                self.marker() == old(self).marker(),
                self.previewing() == old(self).previewing(),
                self.same_chord(old(self)),
            decreases ws@.len() - i,
        {
            proof {
                let next = ws@.subrange(0, i + 1);
                assert(next.drop_last() =~= ws@.subrange(0, i as int));
            }
            self.stack_holder.add(ws[i].id);
            i = i + 1;
        }
        assert(ws@.subrange(0, ws@.len() as int) =~= ws@);
    }

    /// A tracker with the given key codes, its history seeded from the windows
    /// of `tree`: all of them in tree order, the focused one, if any, first.
    pub fn new(key_tab: u32, key_alt: u32, key_sft: u32, tree: &TreeNode) -> (r: Self)
        ensures
            r.wf(),
            r.history() == seeded(leaves(*tree)),
            r.cursor() == 0,
            r.marker() is None,
            !r.modifier_held(),
            !r.reverse_held(),
            !r.previewing(),
            r.key_tab() == key_tab,
            r.key_alt() == key_alt,
            r.key_sft() == key_sft,
    {
        let mut alttab = Self {
            key_tab,
            key_alt,
            key_sft,
            psd_alt: false,
            psd_sft: false,
            previewing: false,
            stack_holder: StackHolder::new(),
            ignore_move_up: None,
        };
        let windows = nodes(tree);
        alttab.add_windows(&windows);
        if let Some(id) = focused_window(&windows) {
            proof {
                lemma_added_all_contains(Seq::empty(), windows@, id);
            }
            alttab.stack_holder.move_up(id);
        }
        alttab
    }

    /// Adds each window of `tree` that the history lacks, at the tail, in tree
    /// order; the entries already there keep their order.
    pub fn refresh_nodes(&mut self, tree: &TreeNode)
        requires
            old(self).wf(),
        ensures
            final(self).wf(),
            final(self).history() == added_all(old(self).history(), leaves(*tree)),
            final(self).cursor() == old(self).cursor(),
            final(self).marker() == old(self).marker(),
            final(self).previewing() == old(self).previewing(),
            final(self).same_chord(old(self)),
    {
        let windows = nodes(tree);
        self.add_windows(&windows);
    }

    /// Whether `event` presses the trigger while the modifier is held: a step
    /// of the preview.
    pub open spec fn is_step(&self, event: KeyEvent) -> bool {
        &&& event.code != self.key_alt()
        &&& event.code != self.key_sft()
        &&& event.code == self.key_tab()
        &&& self.modifier_held()
        &&& event.value == 1
    }

    /// Applies a key transition to the chord.
    ///
    /// The modifier going down starts holding; its release commits the
    /// preview (the window shown, if any, is promoted to the head), puts the
    /// cursor back at the head and clears the marker. The reversing key only
    /// records its state. The trigger going down while the modifier is held
    /// steps the preview, back while the reversing key is held and forward
    /// otherwise; the window now shown is returned, and the marker is armed
    /// with it before the caller asks the compositor to focus it. Any other
    /// event changes nothing. Only a step returns a window.
    pub fn process_keyboard_event(&mut self, event: KeyEvent) -> (r: Option<i64>)
        requires
            old(self).wf(),
            old(self).is_step(event) ==> old(self).history().len() <= usize::MAX,
        ensures
            final(self).wf(),
            final(self).key_tab() == old(self).key_tab(),
            final(self).key_alt() == old(self).key_alt(),
            final(self).key_sft() == old(self).key_sft(),
            event.code == old(self).key_alt() ==> {
                &&& final(self).modifier_held() == (event.value > 0)
                &&& final(self).reverse_held() == old(self).reverse_held()
                &&& r is None
                &&& event.value > 0 ==> final(self).same_session(old(self))
                &&& event.value <= 0 ==> {
                    &&& final(self).history() == finished(old(self).history(), old(self).cursor())
                    &&& final(self).cursor() == 0
                    &&& final(self).marker() is None
                    &&& !final(self).previewing()
                }
            },
            event.code != old(self).key_alt() && event.code == old(self).key_sft() ==> {
                &&& final(self).reverse_held() == (event.value > 0)
                &&& final(self).modifier_held() == old(self).modifier_held()
                &&& final(self).same_session(old(self))
                &&& r is None
            },
            old(self).is_step(event) ==> {
                let n = old(self).history().len() as int;
                let c = if old(self).reverse_held() {
                    prev_cursor(old(self).cursor(), n)
                } else {
                    next_cursor(old(self).cursor(), n)
                };
                &&& final(self).same_chord(old(self))
                &&& final(self).history() == old(self).history()
                &&& final(self).cursor() == c
                &&& r == entry_at(old(self).history(), c)
                &&& final(self).marker() == if r is Some {
                    r
                } else {
                    old(self).marker()
                }
                &&& final(self).previewing()
            },
            event.code != old(self).key_alt() && event.code != old(self).key_sft()
                && !old(self).is_step(event) ==> {
                &&& final(self).same_chord(old(self))
                &&& final(self).same_session(old(self))
                &&& r is None
            },
    {
        if event.code == self.key_alt {
            self.psd_alt = event.value > 0;
            if !self.psd_alt {
                self.stack_holder.preview_finish();
                self.ignore_move_up = None;
                self.previewing = false;
            }
            None
        } else if event.code == self.key_sft {
            self.psd_sft = event.value > 0;
            None
        } else if event.code == self.key_tab && self.psd_alt && event.value == 1 {
            let id = if !self.psd_sft {
                self.stack_holder.preview_next()
            } else {
                self.stack_holder.preview_prev()
            };
            self.previewing = true;
            if let Some(id) = id {
                self.ignore_move_up = Some(id);
            }
            id
        } else {
            None
        }
    }

    /// The focus request for the window that a step returned could not be
    /// sent: no echo will come, so the marker is cleared.
    pub fn preview_failed(&mut self)
        requires
            old(self).wf(),
        ensures
            final(self).wf(),
            final(self).same_chord(old(self)),
            final(self).history() == old(self).history(),
            final(self).cursor() == old(self).cursor(),
            final(self).previewing() == old(self).previewing(),
            final(self).marker() is None,
    {
        self.ignore_move_up = None;
    }

    /// Applies a window notification of the compositor to the history.
    ///
    /// A new window is appended at the tail, a closed one removed. A focused
    /// window is promoted to the head, unless it is the one the marker holds:
    /// that notification is the echo of this tracker's own focus request, and
    /// only clears the marker. A moved window is removed, and `true` asks the
    /// caller to refresh from the tree, which appends it at its new place.
    /// The preview cursor and the chord are not touched.
    pub fn process_sway_event(&mut self, event: WindowEvent) -> (r: bool)
        requires
            old(self).wf(),
        ensures
            final(self).wf(),
            final(self).same_chord(old(self)),
            final(self).cursor() == old(self).cursor(),
            final(self).previewing() == old(self).previewing(),
            r == (event.change == WindowChange::Move),
            event.change == WindowChange::New ==> {
                &&& final(self).history() == with_added(old(self).history(), event.id)
                &&& final(self).marker() == old(self).marker()
            },
            event.change == WindowChange::Close || event.change == WindowChange::Move ==> {
                &&& final(self).history() == without(old(self).history(), event.id)
                &&& final(self).marker() == old(self).marker()
            },
            event.change == WindowChange::Focus && old(self).marker() == Some(event.id) ==> {
                &&& final(self).history() == old(self).history()
                &&& final(self).marker() is None
            },
            event.change == WindowChange::Focus && old(self).marker() != Some(event.id) ==> {
                &&& final(self).history() == promoted(old(self).history(), event.id)
                &&& final(self).marker() == old(self).marker()
            },
            event.change == WindowChange::Other ==> {
                &&& final(self).history() == old(self).history()
                &&& final(self).marker() == old(self).marker()
            },
    {
        let id = event.id;
        match event.change {
            WindowChange::New => {
                self.stack_holder.add(id);
                false
            },
            WindowChange::Close => {
                self.stack_holder.remove(id);
                false
            },
            WindowChange::Focus => {
                if self.ignore_move_up != Some(id) {
                    self.stack_holder.move_up(id);
                } else {
                    self.ignore_move_up = None;
                }
                false
            },
            WindowChange::Move => {
                self.stack_holder.remove(id);
                true
            },
            WindowChange::Other => false,
        }
    }

    /// The id at `depth` of the history, or `None` past the end.
    pub fn get(&self, depth: usize) -> (r: Option<i64>)
        ensures
            r == entry_at(self.history(), depth as int),
    {
        self.stack_holder.get(depth)
    }

    /// The number of windows in the history, at most `usize::MAX`.
    pub fn depth(&self) -> (r: usize)
        ensures
            r == capped_len(self.history()),
    {
        self.stack_holder.depth()
    }

    /// Where the key chord stands.
    pub fn chord_state(&self) -> (r: ChordState)
        ensures
            r == (if !self.modifier_held() {
                ChordState::Idle
            } else if self.previewing() {
                ChordState::Previewing
            } else {
                ChordState::Holding
            }),
    {
        if !self.psd_alt {
            ChordState::Idle
        } else if self.previewing {
            ChordState::Previewing
        } else {
            ChordState::Holding
        }
    }
}

/// The id of the first focused window of `ws`, if any.
fn focused_window(ws: &Vec<Window>) -> (r: Option<i64>)
    ensures
        r == first_focused(ws@),
{
    let mut i: usize = 0;
    assert(ws@.subrange(0, ws@.len() as int) =~= ws@);
    while i < ws.len()
        invariant
            0 <= i <= ws@.len(),
            first_focused(ws@) == first_focused(ws@.subrange(i as int, ws@.len() as int)),
        decreases ws@.len() - i,
    {
        let ghost rest = ws@.subrange(i as int, ws@.len() as int);
        if ws[i].focused {
            return Some(ws[i].id);
        }
        assert(rest.drop_first() =~= ws@.subrange(i + 1, ws@.len() as int));
        i = i + 1;
    }
    None
}

/// Every id of `ws` is in the history after adding them all.
proof fn lemma_added_all_contains(s: Seq<i64>, ws: Seq<Window>, id: i64)
    requires
        first_focused(ws) == Some(id),
    ensures
        added_all(s, ws).contains(id),
    decreases ws.len(),
{
    assert(exists|i: int| 0 <= i < ws.len() && ws[i].id == id) by {
        lemma_first_focused_in(ws);
    }
    let i = choose|i: int| 0 <= i < ws.len() && ws[i].id == id;
    lemma_added_all_keeps(s, ws, i);
}

proof fn lemma_first_focused_in(ws: Seq<Window>)
    ensures
        first_focused(ws) matches Some(id) ==> exists|i: int| 0 <= i < ws.len() && ws[i].id == id,
    decreases ws.len(),
{
    if ws.len() > 0 && !ws[0].focused {
        lemma_first_focused_in(ws.drop_first());
        if let Some(id) = first_focused(ws) {
            let i = choose|i: int| 0 <= i < ws.drop_first().len() && ws.drop_first()[i].id == id;
            assert(ws[i + 1].id == id);
        }
    }
    if ws.len() > 0 && ws[0].focused {
        assert(ws[0].id == first_focused(ws)->Some_0);
    }
}

proof fn lemma_added_all_keeps(s: Seq<i64>, ws: Seq<Window>, i: int)
    requires
        0 <= i < ws.len(),
    ensures
        added_all(s, ws).contains(ws[i].id),
    decreases ws.len(),
{
    let prev = added_all(s, ws.drop_last());
    let last = ws.last().id;
    if i == ws.len() - 1 {
        if !prev.contains(last) {
            assert(prev.push(last)[prev.len() as int] == last);
        }
    } else {
        lemma_added_all_keeps(s, ws.drop_last(), i);
        let k = choose|k: int| 0 <= k < prev.len() && prev[k] == ws[i].id;
        if !prev.contains(last) {
            assert(prev.push(last)[k] == ws[i].id);
        }
    }
}

} // verus!

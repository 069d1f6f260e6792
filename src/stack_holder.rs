//! The preview cursor over the focus history: cycling through windows
//! without touching the history until the choice is committed.
use vstd::prelude::*;
use vstd::arithmetic::div_mod::{lemma_fundamental_div_mod, lemma_fundamental_div_mod_converse};
use crate::stack::{Stack, capped_len, entry_at, promoted, with_added, without, lemma_edits_keep_no_duplicates};

verus! {

/// The cursor after one step forward over `n` entries: the next depth, or 0
/// past the end; unchanged when there are no entries.
pub open spec fn next_cursor(c: int, n: int) -> int {
    if c + 1 < n {
        c + 1
    } else if n > 0 {
        0
    } else {
        c
    }
}

/// The cursor after one step back over `n` entries: the previous depth, or
/// the last one from the head; unchanged when there are no entries.
pub open spec fn prev_cursor(c: int, n: int) -> int {
    if 1 <= c <= n {
        c - 1
    } else if n > 0 {
        n - 1
    } else {
        c
    }
}

/// The history once the preview at cursor `c` is committed: the window under
/// the cursor is promoted to the head, if there is one.
pub open spec fn finished(s: Seq<i64>, c: int) -> Seq<i64> {
    match entry_at(s, c) {
        Some(id) => promoted(s, id),
        None => s,
    }
}

/// A focus history with a preview cursor.
#[derive(Debug)]
pub struct StackHolder {
    window_stack: Stack,
    preview_depth: usize,
}

impl StackHolder {
    /// The history, most recent first.
    pub closed spec fn view(&self) -> Seq<i64> {
        self.window_stack@
    }

    /// The depth that the preview cursor points at.
    pub closed spec fn cursor(&self) -> int {
        self.preview_depth as int
    }

    /// No id occurs twice, and the cursor stays below `usize::MAX`.
    pub open spec fn wf(&self) -> bool {
        &&& self@.no_duplicates()
        &&& 0 <= self.cursor() < usize::MAX
    }

    /// An empty history, with the cursor at the head.
    pub fn new() -> (r: Self)
        ensures
            r.wf(),
            r@ == Seq::<i64>::empty(),
            r.cursor() == 0,
    {
        Self { window_stack: Stack::new(), preview_depth: 0 }
    }

    /// Window `id` was focused: it becomes the most recent entry.
    pub fn move_up(&mut self, id: i64)
        requires
            old(self).wf(),
        ensures
            final(self).wf(),
            final(self)@ == promoted(old(self)@, id),
            final(self).cursor() == old(self).cursor(),
    {
        self.window_stack.move_up(id);
    }

    /// Window `id` appeared: it is appended as the least recent entry, unless present.
    pub fn add(&mut self, id: i64)
        requires
            old(self).wf(),
        ensures
            final(self).wf(),
            final(self)@ == with_added(old(self)@, id),
            final(self).cursor() == old(self).cursor(),
    {
        self.window_stack.add(id);
    }

    /// Window `id` went away: it leaves the history, the others keep their order.
    pub fn remove(&mut self, id: i64)
        requires
            old(self).wf(),
        ensures
            final(self).wf(),
            final(self)@ == without(old(self)@, id),
            final(self).cursor() == old(self).cursor(),
    {
        self.window_stack.remove(id);
    }

    /// The id at `depth`, or `None` past the end.
    pub fn get(&self, depth: usize) -> (r: Option<i64>)
        ensures
            r == entry_at(self@, depth as int),
    {
        self.window_stack.get(depth)
    }

    /// The number of ids in the history, at most `usize::MAX`.
    pub fn depth(&self) -> (r: usize)
        ensures
            r == capped_len(self@),
    {
        self.window_stack.depth()
    }

    /// Ends the preview: the window under the cursor, if any, becomes the most
    /// recent entry, and the cursor goes back to the head.
    pub fn preview_finish(&mut self)
        requires
            old(self).wf(),
        ensures
            final(self).wf(),
            final(self)@ == finished(old(self)@, old(self).cursor()),
            final(self).cursor() == 0,
    {
        if let Some(id) = self.window_stack.get(self.preview_depth) {
            self.window_stack.move_up(id);
        }
        self.preview_depth = 0;
    }

    /// Moves the cursor one entry further into the past, wrapping to the head,
    /// and returns the id under it; the history is unchanged. On an empty
    /// history nothing changes and `None` is returned.
    pub fn preview_next(&mut self) -> (r: Option<i64>)
        requires
            old(self).wf(),
            old(self)@.len() <= usize::MAX,
        ensures
            final(self).wf(),
            final(self)@ == old(self)@,
            final(self).cursor() == next_cursor(old(self).cursor(), old(self)@.len() as int),
            r == entry_at(final(self)@, final(self).cursor()),
    {
        match self.window_stack.get(self.preview_depth + 1) {
            Some(id) => {
                self.preview_depth = self.preview_depth + 1;
                Some(id)
            },
            None => match self.window_stack.get(0) {
                Some(id) => {
                    self.preview_depth = 0;
                    Some(id)
                },
                None => None,
            },
        }
    }

    /// Moves the cursor one entry back toward the head, wrapping to the least
    /// recent entry, and returns the id under it; the history is unchanged. On
    /// an empty history nothing changes and `None` is returned.
    pub fn preview_prev(&mut self) -> (r: Option<i64>)
        requires
            old(self).wf(),
            old(self)@.len() <= usize::MAX,
        ensures
            final(self).wf(),
            final(self)@ == old(self)@,
            final(self).cursor() == prev_cursor(old(self).cursor(), old(self)@.len() as int),
            r == entry_at(final(self)@, final(self).cursor()),
    {
        let n = self.window_stack.depth();
        if self.preview_depth >= 1 && self.preview_depth <= n {
            self.preview_depth = self.preview_depth - 1;
        } else if n > 0 {
            self.preview_depth = n - 1;
        }
        self.window_stack.get(self.preview_depth)
    }
}

/// The cursor after `k` steps forward from `c` over `n` entries.
pub open spec fn cursor_after_nexts(c: int, n: int, k: nat) -> int
    decreases k,
{
    if k == 0 {
        c
    } else {
        next_cursor(cursor_after_nexts(c, n, (k - 1) as nat), n)
    }
}

/// The cursor after `k` steps back from `c` over `n` entries.
pub open spec fn cursor_after_prevs(c: int, n: int, k: nat) -> int
    decreases k,
{
    if k == 0 {
        c
    } else {
        prev_cursor(cursor_after_prevs(c, n, (k - 1) as nat), n)
    }
}

proof fn lemma_nexts_mod(c: int, n: int, k: nat)
    requires
        0 <= c < n,
    ensures
        cursor_after_nexts(c, n, k) == (c + k) % n,
    decreases k,
{
    if k == 0 {
        lemma_fundamental_div_mod_converse(c, n, 0, c);
    } else {
        lemma_nexts_mod(c, n, (k - 1) as nat);
        let x = c + k - 1;
        let r = x % n;
        lemma_fundamental_div_mod(x, n);
        let q = x / n;
        if r + 1 < n {
            assert(x + 1 == q * n + (r + 1)) by (nonlinear_arith)
                requires
                    x == n * q + r,
            ;
            lemma_fundamental_div_mod_converse(x + 1, n, q, r + 1);
        } else {
            assert(x + 1 == (q + 1) * n) by (nonlinear_arith)
                requires
                    x == n * q + r,
                    r + 1 == n,
            ;
            lemma_fundamental_div_mod_converse(x + 1, n, q + 1, 0);
        }
    }
}

proof fn lemma_prevs_mod(c: int, n: int, k: nat)
    requires
        0 <= c < n,
    ensures
        cursor_after_prevs(c, n, k) == (c - k) % n,
    decreases k,
{
    if k == 0 {
        lemma_fundamental_div_mod_converse(c, n, 0, c);
    } else {
        lemma_prevs_mod(c, n, (k - 1) as nat);
        let x = c - k + 1;
        let r = x % n;
        lemma_fundamental_div_mod(x, n);
        let q = x / n;
        if r >= 1 {
            assert(x - 1 == q * n + (r - 1)) by (nonlinear_arith)
                requires
                    x == n * q + r,
            ;
            lemma_fundamental_div_mod_converse(x - 1, n, q, r - 1);
        } else {
            assert(x - 1 == (q - 1) * n + (n - 1)) by (nonlinear_arith)
                requires
                    x == n * q + r,
                    r == 0,
            ;
            lemma_fundamental_div_mod_converse(x - 1, n, q - 1, n - 1);
        }
    }
}

/// Stepping forward from a fresh cursor over `n` entries visits the depths
/// 1, 2, ..., n - 1 and then 0, and repeats that order from there on: each
/// entry of the history is shown once per round.
pub proof fn lemma_next_visits_all(n: int, k: nat)
    requires
        n > 0,
    ensures
        cursor_after_nexts(0, n, k) == (k as int) % n,
        1 <= k < n ==> cursor_after_nexts(0, n, k) == k,
        k == n ==> cursor_after_nexts(0, n, k) == 0,
        cursor_after_nexts(0, n, (k + n) as nat) == cursor_after_nexts(0, n, k),
{
    lemma_nexts_mod(0, n, k);
    lemma_nexts_mod(0, n, (k + n) as nat);
    lemma_fundamental_div_mod(k as int, n);
    let q = k as int / n;
    let r = k as int % n;
    assert(k + n == (q + 1) * n + r) by (nonlinear_arith)
        requires
            k == n * q + r,
    ;
    lemma_fundamental_div_mod_converse(k + n, n, q + 1, r);
    if 1 <= k < n {
        lemma_fundamental_div_mod_converse(k as int, n, 0, k as int);
    }
    if k == n {
        lemma_fundamental_div_mod_converse(k as int, n, 1, 0);
    }
}

/// Whether `x` is shown by one of the first `s.len()` steps forward from a
/// fresh cursor over `s`.
pub open spec fn shown_in_first_round(s: Seq<i64>, x: i64) -> bool {
    exists|k: nat|
        1 <= k <= s.len() && entry_at(s, #[trigger] cursor_after_nexts(0, s.len() as int, k))
            == Some(x)
}

/// One round of `n` steps forward from a fresh cursor over a duplicate-free
/// history of `n` entries shows every entry, and none twice.
pub proof fn lemma_next_round_shows_each_once(s: Seq<i64>)
    requires
        s.no_duplicates(),
        s.len() > 0,
    ensures
        forall|j: nat, l: nat|
            1 <= j < l <= s.len() ==> entry_at(s, #[trigger] cursor_after_nexts(0, s.len() as int, j))
                != entry_at(s, #[trigger] cursor_after_nexts(0, s.len() as int, l)),
        forall|i: int| 0 <= i < s.len() ==> shown_in_first_round(s, #[trigger] s[i]),
{
    let n = s.len() as int;
    assert forall|j: nat, l: nat| 1 <= j < l <= s.len() implies entry_at(
        s,
        #[trigger] cursor_after_nexts(0, n, j),
    ) != entry_at(s, #[trigger] cursor_after_nexts(0, n, l)) by {
        lemma_next_visits_all(n, j);
        lemma_next_visits_all(n, l);
    }
    assert forall|i: int| 0 <= i < s.len() implies shown_in_first_round(s, #[trigger] s[i]) by {
        let k: nat = if i == 0 { n as nat } else { i as nat };
        lemma_next_visits_all(n, k);
        assert(entry_at(s, cursor_after_nexts(0, n, k)) == Some(s[i]));
    }
}

/// Stepping back from any valid cursor retraces stepping forward in reverse:
/// the k-th step back lands where the (n - k)-th step forward lands, and one
/// step back undoes one step forward.
pub proof fn lemma_prev_reverses_next(c: int, n: int, k: nat)
    requires
        0 <= c < n,
        k <= n,
    ensures
        cursor_after_prevs(c, n, k) == cursor_after_nexts(c, n, (n - k) as nat),
        prev_cursor(next_cursor(c, n), n) == c,
        next_cursor(prev_cursor(c, n), n) == c,
{
    lemma_prevs_mod(c, n, k);
    lemma_nexts_mod(c, n, (n - k) as nat);
    lemma_fundamental_div_mod(c - k, n);
    let q = (c - k) / n;
    let r = (c - k) % n;
    assert(c + (n - k) == (q + 1) * n + r) by (nonlinear_arith)
        requires
            c - k == n * q + r,
    ;
    lemma_fundamental_div_mod_converse(c + (n - k), n, q + 1, r);
}

/// Committing a preview promotes exactly the window that the cursor shows, if
/// any; a second commit right after it, with the cursor back at the head,
/// changes nothing.
pub proof fn lemma_finish_commits_once(s: Seq<i64>, c: int)
    requires
        s.no_duplicates(),
    ensures
        entry_at(s, c) is Some ==> finished(s, c) == promoted(s, entry_at(s, c)->Some_0),
        entry_at(s, c) is None ==> finished(s, c) == s,
        finished(finished(s, c), 0) == finished(s, c),
{
    let t = finished(s, c);
    lemma_edits_keep_no_duplicates(s, s[c]);
    if t.len() > 0 {
        lemma_promote_head(t);
    }
}

/// Promoting the entry that is already at the head changes nothing.
pub proof fn lemma_promote_head(s: Seq<i64>)
    requires
        s.no_duplicates(),
        s.len() > 0,
    ensures
        promoted(s, s[0]) == s,
{
    let id = s[0];
    assert(s.contains(id));
    let k = s.index_of(id);
    assert(k == 0);
    assert(seq![id] + s.remove(0) =~= s);
}

} // verus!

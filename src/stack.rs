//! The focus history: a duplicate-free list of window ids, most recent first.
use vstd::prelude::*;

verus! {

/// `s` with the entry `id` cut out; the other entries keep their order.
pub open spec fn without(s: Seq<i64>, id: i64) -> Seq<i64> {
    if s.contains(id) {
        s.remove(s.index_of(id))
    } else {
        s
    }
}

/// `s` with `id` appended at the tail, unless it is already there.
pub open spec fn with_added(s: Seq<i64>, id: i64) -> Seq<i64> {
    if s.contains(id) {
        s
    } else {
        s.push(id)
    }
}

/// `s` with `id` at the head and every other entry in its old order.
pub open spec fn promoted(s: Seq<i64>, id: i64) -> Seq<i64> {
    seq![id] + without(s, id)
}

/// The entry at `depth`, or `None` past the end.
pub open spec fn entry_at(s: Seq<i64>, depth: int) -> Option<i64> {
    if 0 <= depth < s.len() {
        Some(s[depth])
    } else {
        None
    }
}

/// The ids of an optional chain; an absent chain holds none.
pub open spec fn chain_view(c: Option<Box<Node>>) -> Seq<i64> {
    match c {
        Some(n) => n@,
        None => Seq::empty(),
    }
}

proof fn lemma_head_index(s: Seq<i64>, id: i64)
    requires
        s.no_duplicates(),
        s.len() > 0,
        s[0] == id,
    ensures
        without(s, id) == s.drop_first(),
{
    assert(s.contains(id));
    let k = s.index_of(id);
    assert(k == 0);
    assert(s.remove(0) =~= s.drop_first());
}

proof fn lemma_without_cons(head: i64, rest: Seq<i64>, id: i64)
    requires
        (seq![head] + rest).no_duplicates(),
        head != id,
    ensures
        without(seq![head] + rest, id) == seq![head] + without(rest, id),
{
    let s = seq![head] + rest;
    if rest.contains(id) {
        let j = rest.index_of(id);
        assert(s[j + 1] == id);
        assert(s.contains(id));
        let k = s.index_of(id);
        assert(k == j + 1);
        assert(s.remove(k) =~= seq![head] + rest.remove(j));
    } else {
        assert(!s.contains(id)) by {
            if s.contains(id) {
                let k = s.index_of(id);
                assert(rest[k - 1] == id);
            }
        }
    }
}

proof fn lemma_with_added_cons(head: i64, rest: Seq<i64>, id: i64)
    requires
        head != id,
    ensures
        with_added(seq![head] + rest, id) == seq![head] + with_added(rest, id),
{
    let s = seq![head] + rest;
    if rest.contains(id) {
        let j = rest.index_of(id);
        assert(s[j + 1] == id);
    } else {
        assert(!s.contains(id)) by {
            if s.contains(id) {
                let k = choose|k: int| 0 <= k < s.len() && s[k] == id;
                assert(rest[k - 1] == id);
            }
        }
        assert(s.push(id) =~= seq![head] + rest.push(id));
    }
}

/// The length of `s`, or `usize::MAX` where it is longer.
pub open spec fn capped_len(s: Seq<i64>) -> int {
    if s.len() <= usize::MAX {
        s.len() as int
    } else {
        usize::MAX as int
    }
}

/// A link of the chain that holds a [`Stack`].
#[derive(Debug)]
pub struct Node {
    value: i64,
    next: Option<Box<Node>>,
}

impl Node {
    /// The ids held by this link and the ones after it, in order.
    pub closed spec fn view(&self) -> Seq<i64>
        decreases self,
    {
        match self.next {
            Some(next) => seq![self.value] + next.view(),
            None => seq![self.value],
        }
    }

    /// A chain of one link holding `value`.
    pub fn new(value: i64) -> (r: Self)
        ensures
            r@ == seq![value],
    {
        Self { value, next: None }
    }

    /// The chain with the link holding `value` taken out, `None` if nothing is left.
    pub fn remove(self, value: i64) -> (r: Option<Box<Self>>)
        requires
            self@.no_duplicates(),
        ensures
            chain_view(r) == without(self@, value),
            r is None <==> self@ == seq![value],
        decreases self,
    {
        if self.value == value {
            proof {
                lemma_head_index(self@, value);
                if self.next is Some {
                    self.next->Some_0.lemma_not_empty();
                    assert(self@.len() >= 2);
                }
            }
            self.next
        } else {
            let ghost whole = self@;
            let Node { value: head, next } = self;
            proof {
                assert(whole == seq![head] + chain_view(next));
                assert(whole[0] != value);
                assert forall|i: int, j: int|
                    0 <= i < chain_view(next).len() && 0 <= j < chain_view(next).len() && i
                        != j implies chain_view(next)[i] != chain_view(next)[j] by {
                    assert(whole[i + 1] == chain_view(next)[i]);
                    assert(whole[j + 1] == chain_view(next)[j]);
                }
            }
            let rest = match next {
                Some(next) => next.remove(value),
                None => None,
            };
            proof {
                lemma_without_cons(head, chain_view(next), value);
            }
            Some(Box::new(Self { value: head, next: rest }))
        }
    }

    /// The chain with `value` at its head and the other ids in their old order.
    pub fn move_up(self, value: i64) -> (r: Box<Self>)
        requires
            self@.no_duplicates(),
        ensures
            r@ == promoted(self@, value),
    {
        Box::new(Self { value, next: self.remove(value) })
    }

    /// The chain with `value` appended at the tail, unless some link holds it.
    pub fn add(self, value: i64) -> (r: Box<Self>)
        ensures
            r@ == with_added(self@, value),
        decreases self,
    {
        let Node { value: head, next } = self;
        if head != value {
            let rest = match next {
                Some(next) => next.add(value),
                None => Box::new(Node::new(value)),
            };
            proof {
                lemma_with_added_cons(head, chain_view(next), value);
            }
            Box::new(Self { value: head, next: Some(rest) })
        } else {
            assert(self@[0] == value);
            Box::new(Self { value: head, next })
        }
    }

    /// The id at `depth`, counted from this link.
    pub fn get(&self, depth: usize) -> (r: Option<i64>)
        ensures
            r == entry_at(self@, depth as int),
        decreases self,
    {
        if depth == 0 {
            Some(self.value)
        } else {
            match &self.next {
                Some(next) => next.get(depth - 1),
                None => None,
            }
        }
    }

    /// The number of links in the chain from this one on, at most `usize::MAX`.
    pub fn depth(&self) -> (r: usize)
        ensures
            r == capped_len(self@),
            r >= 1,
        decreases self,
    {
        match &self.next {
            Some(next) => {
                let d = next.depth();
                if d < usize::MAX {
                    d + 1
                } else {
                    d
                }
            },
            None => 1,
        }
    }

    /// A chain holds at least one id.
    pub proof fn lemma_not_empty(&self)
        ensures
            self@.len() >= 1,
    {
    }
}

/// The focus history: window ids, most recently focused first, each at most once.
#[derive(Debug)]
pub struct Stack {
    head: Option<Box<Node>>,
}

impl Stack {
    /// The ids in the history, most recent first.
    pub closed spec fn view(&self) -> Seq<i64> {
        chain_view(self.head)
    }

    /// No id occurs twice.
    pub open spec fn wf(&self) -> bool {
        self@.no_duplicates()
    }

    /// An empty history.
    pub fn new() -> (r: Self)
        ensures
            r.wf(),
            r@ == Seq::<i64>::empty(),
    {
        Self { head: None }
    }

    /// Records that window `id` was focused: it becomes the most recent entry,
    /// and is inserted there if it was absent. Returns `id`.
    pub fn move_up(&mut self, id: i64) -> (r: i64)
        requires
            old(self).wf(),
        ensures
            r == id,
            final(self).wf(),
            final(self)@ == promoted(old(self)@, id),
            final(self)@[0] == id,
    {
        proof {
            lemma_edits_keep_no_duplicates(self@, id);
        }
        self.head = match self.head.take() {
            Some(head) => Some(head.move_up(id)),
            None => Some(Box::new(Node::new(id))),
        };
        proof {
            assert(promoted(Seq::<i64>::empty(), id) =~= seq![id]);
        }
        id
    }

    /// Appends window `id` as the least recent entry, unless it is already
    /// present; the order of the others is never changed. Returns `id`.
    pub fn add(&mut self, id: i64) -> (r: i64)
        requires
            old(self).wf(),
        ensures
            r == id,
            final(self).wf(),
            final(self)@ == with_added(old(self)@, id),
    {
        proof {
            lemma_edits_keep_no_duplicates(self@, id);
        }
        self.head = match self.head.take() {
            Some(head) => Some(head.add(id)),
            None => Some(Box::new(Node::new(id))),
        };
        proof {
            assert(with_added(Seq::<i64>::empty(), id) =~= seq![id]);
        }
        id
    }

    /// Drops window `id` from the history, if present; the others keep their
    /// order. Returns `id`.
    pub fn remove(&mut self, id: i64) -> (r: i64)
        requires
            old(self).wf(),
        ensures
            r == id,
            final(self).wf(),
            final(self)@ == without(old(self)@, id),
    {
        proof {
            lemma_edits_keep_no_duplicates(self@, id);
        }
        self.head = match self.head.take() {
            Some(head) => head.remove(id),
            None => None,
        };
        id
    }

    /// The id at `depth` (0 is the most recent), or `None` past the end.
    pub fn get(&self, depth: usize) -> (r: Option<i64>)
        ensures
            r == entry_at(self@, depth as int),
    {
        match &self.head {
            Some(head) => head.get(depth),
            None => None,
        }
    }

    /// The number of ids in the history, at most `usize::MAX`.
    pub fn depth(&self) -> (r: usize)
        ensures
            r == capped_len(self@),
    {
        match &self.head {
            Some(head) => head.depth(),
            None => 0,
        }
    }
}

/// What `without` keeps: every entry but `id`, each at its old index or one
/// lower.
proof fn lemma_without_entries(s: Seq<i64>, id: i64)
    requires
        s.no_duplicates(),
    ensures
        s.contains(id) ==> without(s, id).len() == s.len() - 1,
        !s.contains(id) ==> without(s, id) == s,
        forall|x: i64| #[trigger] without(s, id).contains(x) <==> (s.contains(x) && x != id),
        forall|i: int|
            0 <= i < without(s, id).len() ==> (#[trigger] without(s, id)[i] == s[i] || without(
                s,
                id,
            )[i] == s[i + 1]),
{
    if s.contains(id) {
        let k = s.index_of(id);
        let r = s.remove(k);
        assert forall|x: i64| #[trigger] r.contains(x) <==> (s.contains(x) && x != id) by {
            if r.contains(x) {
                let i = choose|i: int| 0 <= i < r.len() && r[i] == x;
                if i < k {
                    assert(s[i] == x);
                } else {
                    assert(s[i + 1] == x);
                }
            }
            if s.contains(x) && x != id {
                let i = choose|i: int| 0 <= i < s.len() && s[i] == x;
                if i < k {
                    assert(r[i] == x);
                } else {
                    assert(r[i - 1] == x);
                }
            }
        }
    }
}

/// Adding, removing and promoting an id never make an id occur twice.
pub proof fn lemma_edits_keep_no_duplicates(s: Seq<i64>, id: i64)
    requires
        s.no_duplicates(),
    ensures
        with_added(s, id).no_duplicates(),
        without(s, id).no_duplicates(),
        promoted(s, id).no_duplicates(),
        with_added(s, id).len() == if s.contains(id) { s.len() } else { s.len() + 1 },
        promoted(s, id).len() == if s.contains(id) { s.len() } else { s.len() + 1 },
        without(s, id).len() == if s.contains(id) { s.len() - 1 } else { s.len() as int },
{
    lemma_without_entries(s, id);
    let w = without(s, id);
    if s.contains(id) {
        let k = s.index_of(id);
        assert forall|i: int, j: int| 0 <= i < w.len() && 0 <= j < w.len() && i != j implies w[i]
            != w[j] by {
            let a = if i < k { i } else { i + 1 };
            let b = if j < k { j } else { j + 1 };
            assert(w[i] == s[a]);
            assert(w[j] == s[b]);
        }
    }
    let p = promoted(s, id);
    assert forall|i: int, j: int| 0 <= i < p.len() && 0 <= j < p.len() && i != j implies p[i]
        != p[j] by {
        if i == 0 {
            assert(w.contains(p[j]));
        } else if j == 0 {
            assert(w.contains(p[i]));
        } else {
            assert(p[i] == w[i - 1]);
            assert(p[j] == w[j - 1]);
        }
    }
    if !s.contains(id) {
        let a = s.push(id);
        assert forall|i: int, j: int| 0 <= i < a.len() && 0 <= j < a.len() && i != j implies a[i]
            != a[j] by {
            if i == s.len() {
                assert(s[j] == a[j]);
            } else if j == s.len() {
                assert(s[i] == a[i]);
            }
        }
    }
}

/// Removing an id keeps every other entry, in the relative order it had.
pub proof fn lemma_remove_keeps_order(s: Seq<i64>, id: i64)
    requires
        s.no_duplicates(),
    ensures
        forall|x: i64| #[trigger] without(s, id).contains(x) <==> (s.contains(x) && x != id),
        forall|i: int, j: int|
            0 <= i < j < without(s, id).len() ==> s.index_of(#[trigger] without(s, id)[i])
                < s.index_of(#[trigger] without(s, id)[j]),
{
    lemma_without_entries(s, id);
    let w = without(s, id);
    assert forall|i: int, j: int| 0 <= i < j < w.len() implies s.index_of(#[trigger] w[i])
        < s.index_of(#[trigger] w[j]) by {
        let k = if s.contains(id) { s.index_of(id) } else { s.len() as int };
        let a = if i < k { i } else { i + 1 };
        let b = if j < k { j } else { j + 1 };
        if s.contains(id) {
            assert(w[i] == s[a]);
            assert(w[j] == s[b]);
        }
        assert(s.contains(w[i]) && s.contains(w[j])) by {
            assert(s[a] == w[i]);
            assert(s[b] == w[j]);
        }
        assert(s.index_of(w[i]) == a);
        assert(s.index_of(w[j]) == b);
    }
}

} // verus!

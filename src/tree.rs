//! The compositor's window tree, and the windows found in it.
use vstd::prelude::*;

verus! {

/// The kind of a node of the compositor's tree.
#[derive(Clone, Copy, Debug, PartialEq, Eq, Structural)]
pub enum NodeType {
    Root,
    Output,
    Workspace,
    Con,
    FloatingCon,
    Dockarea,
}

/// How a node of the tree lays out its children; `NoLayout` for a node that
/// holds a view rather than children.
#[derive(Clone, Copy, Debug, PartialEq, Eq, Structural)]
pub enum NodeLayout {
    SplitH,
    SplitV,
    Stacked,
    Tabbed,
    Output,
    Dockarea,
    NoLayout,
}

/// A node of the compositor's tree, with what window tracking reads of it.
#[derive(Debug)]
pub struct TreeNode {
    pub id: i64,
    pub name: Option<String>,
    pub node_type: NodeType,
    pub layout: NodeLayout,
    pub focused: bool,
    pub nodes: Vec<TreeNode>,
    pub floating_nodes: Vec<TreeNode>,
}

/// A window found in the tree: its id, and whether it has the focus.
#[derive(Clone, Copy, Debug, PartialEq, Eq, Structural)]
pub struct Window {
    pub id: i64,
    pub focused: bool,
}

/// The name that the compositor gives the scratchpad workspace.
pub open spec fn scratchpad_name() -> Seq<char> {
    "__i3_scratch"@
}

/// The hidden scratchpad workspace, whose windows are not cycled through.
pub open spec fn is_scratchpad(t: TreeNode) -> bool {
    &&& t.node_type == NodeType::Workspace
    &&& t.name matches Some(n) && n@ == scratchpad_name()
}

/// A node that is a window: a container without a layout of its own, or a
/// floating container.
pub open spec fn is_window(t: TreeNode) -> bool {
    (t.node_type == NodeType::Con && t.layout == NodeLayout::NoLayout) || t.node_type
        == NodeType::FloatingCon
}

/// The windows under `t`, tiled children before floating ones, depth first;
/// nothing under the scratchpad.
pub open spec fn leaves(t: TreeNode) -> Seq<Window>
    decreases t,
{
    if is_scratchpad(t) {
        Seq::empty()
    } else if is_window(t) {
        seq![Window { id: t.id, focused: t.focused }]
    } else {
        leaves_of(t.nodes@) + leaves_of(t.floating_nodes@)
    }
}

/// The windows under each node of `ts`, in order.
pub open spec fn leaves_of(ts: Seq<TreeNode>) -> Seq<Window>
    decreases ts,
{
    if ts.len() == 0 {
        Seq::empty()
    } else {
        leaves_of(ts.subrange(0, ts.len() - 1)) + leaves(ts[ts.len() - 1])
    }
}

/// Whether `a` and `b` hold the same characters.
fn same_text(a: &str, b: &str) -> (r: bool)
    ensures
        r == (a@ == b@),
{
    let n = a.unicode_len();
    if n != b.unicode_len() {
        return false;
    }
    let mut i: usize = 0;
    while i < n
        invariant
            n == a@.len(),
            n == b@.len(),
            0 <= i <= n,
            a@.subrange(0, i as int) == b@.subrange(0, i as int),
        decreases n - i,
    {
        if a.get_char(i) != b.get_char(i) {
            return false;
        }
        assert(a@.subrange(0, i + 1) =~= a@.subrange(0, i as int).push(a@[i as int]));
        assert(b@.subrange(0, i + 1) =~= b@.subrange(0, i as int).push(b@[i as int]));
        i = i + 1;
    }
    assert(a@ =~= a@.subrange(0, n as int));
    assert(b@ =~= b@.subrange(0, n as int));
    true
}

/// Whether `tree` is the scratchpad workspace.
fn scratchpad(tree: &TreeNode) -> (r: bool)
    ensures
        r == is_scratchpad(*tree),
{
    match &tree.name {
        Some(name) => {
            tree.node_type == NodeType::Workspace && same_text(name.as_str(), "__i3_scratch")
        },
        None => false,
    }
}

/// The windows of each node of `ts`, appended to `out`.
fn push_leaves(ts: &Vec<TreeNode>, out: &mut Vec<Window>)
    ensures
        final(out)@ == old(out)@ + leaves_of(ts@),
    decreases ts, 0nat,
{
    let mut i: usize = 0;
    while i < ts.len()
        invariant
            0 <= i <= ts@.len(),
            out@ == old(out)@ + leaves_of(ts@.subrange(0, i as int)),
        decreases ts@.len() - i,
    {
        let mut found = nodes(&ts[i]);
        let ghost before = out@;
        out.append(&mut found);
        proof {
            assert(ts@.subrange(0, i + 1).subrange(0, i as int) =~= ts@.subrange(0, i as int));
            assert(out@ =~= old(out)@ + leaves_of(ts@.subrange(0, i + 1)));
        }
        i = i + 1;
    }
    assert(ts@.subrange(0, ts@.len() as int) =~= ts@);
}

/// The windows of `tree`: the containers without a layout of their own and the
/// floating containers, tiled before floating, depth first, leaving out the
/// scratchpad.
pub fn nodes(tree: &TreeNode) -> (r: Vec<Window>)
    ensures
        r@ == leaves(*tree),
    decreases tree, 1nat,
{
    if scratchpad(tree) {
        Vec::new()
    } else if (tree.node_type == NodeType::Con && tree.layout == NodeLayout::NoLayout)
        || tree.node_type == NodeType::FloatingCon {
        vec![Window { id: tree.id, focused: tree.focused }]
    } else {
        let mut out = Vec::new();
        push_leaves(&tree.nodes, &mut out);
        push_leaves(&tree.floating_nodes, &mut out);
        assert(out@ =~= leaves(*tree));
        out
    }
}

} // verus!

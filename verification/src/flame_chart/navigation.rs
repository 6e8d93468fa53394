//! Keyboard navigation over a laid-out flame chart.
use vstd::prelude::*;
use crate::flame_chart::layout::{FlameLayout, FlameLayoutNode, NodeId, ids_are_positions, one_root};

verus! {

/// The keys the navigator reacts to; any other key is `Other`.
#[derive(Clone, Copy, Debug, PartialEq, Eq, Structural)]
pub enum NavKey {
    Left,
    Right,
    Up,
    Down,
    Enter,
    Esc,
    Other,
}

/// The selected node and the focused node of a flame chart, by node id.
#[derive(Clone, Copy, Debug)]
pub struct FlameNavigator {
    pub selected_node: Option<NodeId>,
    pub focused_node: Option<NodeId>,
}

/// The index of the first node with id `id` at or after `j`.
pub open spec fn position_from(nodes: Seq<FlameLayoutNode>, id: NodeId, j: int) -> Option<int>
    decreases nodes.len() - j,
{
    if j < 0 || j >= nodes.len() {
        None
    } else if nodes[j].id == id {
        Some(j)
    } else {
        position_from(nodes, id, j + 1)
    }
}

/// Scanning back from `j`: the nearest node at depth `d`, unless a node
/// shallower than `d` comes first.
pub open spec fn sibling_before(nodes: Seq<FlameLayoutNode>, j: int, d: int) -> Option<int>
    decreases j + 1,
{
    if j < 0 || j >= nodes.len() {
        None
    } else if nodes[j].depth < d {
        None
    } else if nodes[j].depth == d {
        Some(j)
    } else {
        sibling_before(nodes, j - 1, d)
    }
}

/// Scanning forward from `j`: the nearest node at depth `d`, unless a node
/// shallower than `d` comes first.
pub open spec fn sibling_after(nodes: Seq<FlameLayoutNode>, j: int, d: int) -> Option<int>
    decreases nodes.len() - j,
{
    if j < 0 || j >= nodes.len() {
        None
    } else if nodes[j].depth < d {
        None
    } else if nodes[j].depth == d {
        Some(j)
    } else {
        sibling_after(nodes, j + 1, d)
    }
}

/// Scanning back from `j`: the nearest node at depth `d`.
pub open spec fn depth_before(nodes: Seq<FlameLayoutNode>, j: int, d: int) -> Option<int>
    decreases j + 1,
{
    if j < 0 || j >= nodes.len() {
        None
    } else if nodes[j].depth == d {
        Some(j)
    } else {
        depth_before(nodes, j - 1, d)
    }
}

/// Scanning forward from `j`: the nearest node at depth `d + 1`, unless a
/// node at depth `d` or shallower comes first.
pub open spec fn child_after(nodes: Seq<FlameLayoutNode>, j: int, d: int) -> Option<int>
    decreases nodes.len() - j,
{
    if j < 0 || j >= nodes.len() {
        None
    } else if nodes[j].depth <= d {
        None
    } else if nodes[j].depth == d + 1 {
        Some(j)
    } else {
        child_after(nodes, j + 1, d)
    }
}

/// The index the selection moves to from index `idx` on `key`, if it moves.
pub open spec fn move_target(nodes: Seq<FlameLayoutNode>, idx: int, key: NavKey) -> Option<int> {
    let d = nodes[idx].depth as int;
    match key {
        NavKey::Left => if d > 0 {
            sibling_before(nodes, idx - 1, d)
        } else {
            None
        },
        NavKey::Right => sibling_after(nodes, idx + 1, d),
        NavKey::Up => if d > 0 {
            depth_before(nodes, idx - 1, d - 1)
        } else {
            None
        },
        NavKey::Down => child_after(nodes, idx + 1, d),
        _ => None,
    }
}

/// The navigator after `key` is pressed on a layout with nodes `nodes`.
pub open spec fn navigate(nav: FlameNavigator, nodes: Seq<FlameLayoutNode>, key: NavKey) -> FlameNavigator {
    match nav.selected_node {
        None => nav,
        Some(sel) => match position_from(nodes, sel, 0) {
            None => nav,
            Some(idx) => match key {
                NavKey::Enter => FlameNavigator { focused_node: Some(nodes[idx].id), ..nav },
                NavKey::Esc => FlameNavigator { focused_node: None, ..nav },
                _ => match move_target(nodes, idx, key) {
                    Some(t) => FlameNavigator { selected_node: Some(nodes[t].id), ..nav },
                    None => nav,
                },
            },
        },
    }
}

proof fn lemma_position_from(nodes: Seq<FlameLayoutNode>, id: NodeId, j: int)
    ensures
        position_from(nodes, id, j) matches Some(i) ==> j <= i < nodes.len() && nodes[i].id == id,
    decreases nodes.len() - j,
{
    if 0 <= j < nodes.len() && nodes[j].id != id {
        lemma_position_from(nodes, id, j + 1);
    }
}

impl FlameNavigator {
    /// A navigator with the root (node 0) selected and nothing focused.
    pub fn new() -> (r: Self)
        ensures
            r.selected_node == Some(0u64),
            r.focused_node is None,
    {
        FlameNavigator { selected_node: Some(0), focused_node: None }
    }

    /// Moves the selection (arrows) or the focus (Enter, Esc) on `key`:
    /// Left/Right go to the previous/next node at the same depth under the
    /// same parent, Up to the parent, Down to the first child.
    #[verifier::loop_isolation(false)]
    pub fn handle_key(&mut self, key: NavKey, layout: &FlameLayout)
        ensures
            *final(self) == navigate(*old(self), layout.nodes@, key),
    {
        let selected = match self.selected_node {
            Some(s) => s,
            None => return,
        };
        let nodes = &layout.nodes;
        let n = nodes.len();
        let mut idx: usize = 0;
        while idx < n && nodes[idx].id != selected
            invariant
                n == nodes@.len(),
                idx <= n,
                position_from(nodes@, selected, 0) == position_from(nodes@, selected, idx as int),
            decreases n - idx,
        {
            idx = idx + 1;
        }
        if idx == n {
            return;
        }
        proof {
            lemma_position_from(nodes@, selected, 0);
        }
        let node = nodes[idx];
        let d = node.depth;
        match key {
            NavKey::Left => {
                if d > 0 {
                    let mut j: usize = idx;
                    while j > 0
                        invariant
                            j <= idx < n,
                            n == nodes@.len(),
                            sibling_before(nodes@, idx - 1, d as int) == sibling_before(
                                nodes@,
                                j - 1,
                                d as int,
                            ),
                            *self == *old(self),
                        decreases j,
                    {
                        let s = nodes[j - 1];
                        if s.depth < d {
                            return;
                        }
                        if s.depth == d {
                            self.selected_node = Some(s.id);
                            return;
                        }
                        j = j - 1;
                    }
                }
            },
            NavKey::Right => {
                let mut j: usize = idx + 1;
                while j < n
                    invariant
                        idx < j <= n,
                        n == nodes@.len(),
                        sibling_after(nodes@, idx + 1, d as int) == sibling_after(nodes@, j as int, d as int),
                        *self == *old(self),
                    decreases n - j,
                {
                    let s = nodes[j];
                    if s.depth < d {
                        return;
                    }
                    if s.depth == d {
                        self.selected_node = Some(s.id);
                        return;
                    }
                    j = j + 1;
                }
            },
            NavKey::Up => {
                if d > 0 {
                    let mut j: usize = idx;
                    while j > 0
                        invariant
                            j <= idx < n,
                            n == nodes@.len(),
                            d > 0,
                            depth_before(nodes@, idx - 1, d - 1) == depth_before(
                                nodes@,
                                j - 1,
                                d - 1,
                            ),
                            *self == *old(self),
                        decreases j,
                    {
                        let s = nodes[j - 1];
                        if s.depth == d - 1 {
                            self.selected_node = Some(s.id);
                            return;
                        }
                        j = j - 1;
                    }
                }
            },
            NavKey::Down => {
                let mut j: usize = idx + 1;
                while j < n
                    invariant
                        idx < j <= n,
                        n == nodes@.len(),
                        child_after(nodes@, idx + 1, d as int) == child_after(nodes@, j as int, d as int),
                        *self == *old(self),
                    decreases n - j,
                {
                    let s = nodes[j];
                    if s.depth <= d {
                        return;
                    }
                    if s.depth == d + 1 {
                        self.selected_node = Some(s.id);
                        return;
                    }
                    j = j + 1;
                }
            },
            NavKey::Enter => {
                self.focused_node = Some(node.id);
            },
            NavKey::Esc => {
                self.focused_node = None;
            },
            NavKey::Other => {},
        }
    }
}

impl Default for FlameNavigator {
    fn default() -> (r: Self)
        ensures
            r.selected_node == Some(0u64),
            r.focused_node is None,
    {
        Self::new()
    }
}

proof fn lemma_position_of_id(nodes: Seq<FlameLayoutNode>, i: int, j: int)
    requires
        ids_are_positions(nodes),
        0 <= j <= i < nodes.len(),
    ensures
        position_from(nodes, i as NodeId, j) == Some(i),
    decreases i - j,
{
    assert(nodes[i].id == i);
    if j < i {
        assert(nodes[j].id == j);
        lemma_position_of_id(nodes, i, j + 1);
    }
}

proof fn lemma_sibling_after_found(nodes: Seq<FlameLayoutNode>, j: int, d: int)
    requires
        sibling_after(nodes, j, d) is Some,
    ensures
        ({
            let t = sibling_after(nodes, j, d)->0;
            &&& 0 <= j <= t < nodes.len()
            &&& nodes[t].depth == d
            &&& forall|k: int| j <= k < t ==> #[trigger] nodes[k].depth > d
        }),
    decreases nodes.len() - j,
{
    if nodes[j].depth != d {
        lemma_sibling_after_found(nodes, j + 1, d);
    }
}

proof fn lemma_sibling_before_found(nodes: Seq<FlameLayoutNode>, j: int, d: int)
    requires
        sibling_before(nodes, j, d) is Some,
    ensures
        ({
            let t = sibling_before(nodes, j, d)->0;
            &&& 0 <= t <= j < nodes.len()
            &&& nodes[t].depth == d
            &&& forall|k: int| t < k <= j ==> #[trigger] nodes[k].depth > d
        }),
    decreases j + 1,
{
    if nodes[j].depth != d {
        lemma_sibling_before_found(nodes, j - 1, d);
    }
}

proof fn lemma_child_after_found(nodes: Seq<FlameLayoutNode>, j: int, d: int)
    requires
        child_after(nodes, j, d) is Some,
    ensures
        ({
            let t = child_after(nodes, j, d)->0;
            &&& 0 <= j <= t < nodes.len()
            &&& nodes[t].depth == d + 1
            &&& forall|k: int| j <= k < t ==> #[trigger] nodes[k].depth > d + 1
        }),
    decreases nodes.len() - j,
{
    if nodes[j].depth != d + 1 {
        lemma_child_after_found(nodes, j + 1, d);
    }
}

proof fn lemma_sibling_before_reaches(nodes: Seq<FlameLayoutNode>, t: int, j: int, d: int)
    requires
        0 <= t <= j < nodes.len(),
        nodes[t].depth == d,
        forall|k: int| t < k <= j ==> #[trigger] nodes[k].depth > d,
    ensures
        sibling_before(nodes, j, d) == Some(t),
    decreases j - t,
{
    if j > t {
        assert(nodes[j].depth > d);
        lemma_sibling_before_reaches(nodes, t, j - 1, d);
    }
}

proof fn lemma_sibling_after_reaches(nodes: Seq<FlameLayoutNode>, t: int, j: int, d: int)
    requires
        0 <= j <= t < nodes.len(),
        nodes[t].depth == d,
        forall|k: int| j <= k < t ==> #[trigger] nodes[k].depth > d,
    ensures
        sibling_after(nodes, j, d) == Some(t),
    decreases t - j,
{
    if j < t {
        assert(nodes[j].depth > d);
        lemma_sibling_after_reaches(nodes, t, j + 1, d);
    }
}

proof fn lemma_depth_before_reaches(nodes: Seq<FlameLayoutNode>, t: int, j: int, d: int)
    requires
        0 <= t <= j < nodes.len(),
        nodes[t].depth == d,
        forall|k: int| t < k <= j ==> #[trigger] nodes[k].depth > d,
    ensures
        depth_before(nodes, j, d) == Some(t),
    decreases j - t,
{
    if j > t {
        assert(nodes[j].depth > d);
        lemma_depth_before_reaches(nodes, t, j - 1, d);
    }
}

/// Moving right to the next sibling and then left comes back to where the
/// selection started.
pub proof fn lemma_right_then_left(nav: FlameNavigator, nodes: Seq<FlameLayoutNode>)
    requires
        ids_are_positions(nodes),
        one_root(nodes),
        navigate(nav, nodes, NavKey::Right).selected_node != nav.selected_node,
    ensures
        navigate(navigate(nav, nodes, NavKey::Right), nodes, NavKey::Left) == nav,
{
    let s = nav.selected_node->0;
    lemma_position_from(nodes, s, 0);
    let i = position_from(nodes, s, 0)->0;
    assert(nodes[i].id == i);
    let d = nodes[i].depth as int;
    lemma_sibling_after_found(nodes, i + 1, d);
    let t = sibling_after(nodes, i + 1, d)->0;
    let nav1 = navigate(nav, nodes, NavKey::Right);
    assert(nodes[t].id == t);
    lemma_position_of_id(nodes, t, 0);
    if d > 0 {
        lemma_sibling_before_reaches(nodes, i, t - 1, d);
    }
    assert(nodes[t].depth > 0);
}

/// Moving left to the previous sibling and then right comes back to where
/// the selection started.
pub proof fn lemma_left_then_right(nav: FlameNavigator, nodes: Seq<FlameLayoutNode>)
    requires
        ids_are_positions(nodes),
        navigate(nav, nodes, NavKey::Left).selected_node != nav.selected_node,
    ensures
        navigate(navigate(nav, nodes, NavKey::Left), nodes, NavKey::Right) == nav,
{
    let s = nav.selected_node->0;
    lemma_position_from(nodes, s, 0);
    let i = position_from(nodes, s, 0)->0;
    assert(nodes[i].id == i);
    let d = nodes[i].depth as int;
    lemma_sibling_before_found(nodes, i - 1, d);
    let t = sibling_before(nodes, i - 1, d)->0;
    assert(nodes[t].id == t);
    lemma_position_of_id(nodes, t, 0);
    lemma_sibling_after_reaches(nodes, i, t + 1, d);
}

/// Moving down to the first child and then up comes back to where the
/// selection started.
pub proof fn lemma_down_then_up(nav: FlameNavigator, nodes: Seq<FlameLayoutNode>)
    requires
        ids_are_positions(nodes),
        navigate(nav, nodes, NavKey::Down).selected_node != nav.selected_node,
    ensures
        navigate(navigate(nav, nodes, NavKey::Down), nodes, NavKey::Up) == nav,
{
    let s = nav.selected_node->0;
    lemma_position_from(nodes, s, 0);
    let i = position_from(nodes, s, 0)->0;
    assert(nodes[i].id == i);
    let d = nodes[i].depth as int;
    lemma_child_after_found(nodes, i + 1, d);
    let t = child_after(nodes, i + 1, d)->0;
    assert(nodes[t].id == t);
    lemma_position_of_id(nodes, t, 0);
    lemma_depth_before_reaches(nodes, i, t - 1, d);
}

} // verus!
